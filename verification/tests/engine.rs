use boggle::{Dict, FromStrError, Grid};

fn sorted_words(d: &Dict) -> Vec<String> {
    let mut ws = d.words();
    ws.sort();
    ws
}

#[test]
fn add_rejects_short_words() {
    let mut d = Dict::new();
    d.add("ok");
    assert!(d.words().is_empty());
}

#[test]
fn add_lowercases_words() {
    let mut d = Dict::new();
    d.add("Cat");
    assert_eq!(sorted_words(&d), vec!["cat".to_string()]);
}

#[test]
fn add_rejects_non_letters() {
    let mut d = Dict::new();
    d.add("hello-world");
    assert!(d.words().is_empty());
}

#[test]
fn add_keeps_qu_in_the_value() {
    let mut d = Dict::new();
    d.add("queen");
    assert_eq!(sorted_words(&d), vec!["queen".to_string()]);
}

#[test]
fn add_overwrites_same_path() {
    let mut d = Dict::new();
    d.add("cat");
    d.add("cat");
    assert_eq!(sorted_words(&d), vec!["cat".to_string()]);
}

#[test]
fn extend_is_idempotent() {
    let words: Vec<String> = ["cat", "dog", "queen", "ok", "Cat"]
        .iter()
        .map(|s| s.to_string())
        .collect();
    let mut once = Dict::new();
    once.extend(&words);
    let mut twice = Dict::new();
    twice.extend(&words);
    twice.extend(&words);
    assert_eq!(sorted_words(&once), sorted_words(&twice));
}

#[test]
fn grid_bounds() {
    let g = Grid::from_string("abcdefghijklmnop").unwrap();
    assert_eq!(g.get(4, 0), None);
    assert_eq!(g.get(0, 4), None);
    assert_eq!(g.get(3, 3), Some('p'));
    assert_eq!(g.get(0, 0), Some('a'));
    assert_eq!(g.get(1, 2), Some('j'));
}

#[test]
fn grid_rejects_wrong_count() {
    assert_eq!(Grid::from_string("abc"), Err(FromStrError::InvalidCount));
}

#[test]
fn grid_rejects_non_alphabetic() {
    assert_eq!(
        Grid::from_string("abcdefghijklmno1"),
        Err(FromStrError::InvalidChar('1'))
    );
}

#[test]
fn grid_cells_row_major() {
    let g = Grid::from_string("abcdefghijklmnop").unwrap();
    let cells = g.cells();
    assert_eq!(cells.len(), 16);
    assert_eq!(cells[0], (0, 0, 'a'));
    assert_eq!(cells[5], (1, 1, 'f'));
    assert_eq!(cells[15], (3, 3, 'p'));
}

#[test]
fn grid_neighbours_corner_and_centre() {
    let g = Grid::from_string("abcdefghijklmnop").unwrap();
    assert_eq!(g.neighbours(0, 0).len(), 3);
    assert_eq!(g.neighbours(1, 1).len(), 8);
    assert_eq!(g.neighbours(3, 3).len(), 3);
    assert_eq!(g.neighbours(1, 0).len(), 5);
}

#[test]
fn search_finds_back() {
    let g = Grid::from_string("gbahwcaickoyelnh").unwrap();
    let mut d = Dict::new();
    d.add("back");
    d.add("zoo");
    let found = g.words(&d);
    assert!(found.contains("back"));
    assert!(!found.contains("zoo"));
}

#[test]
fn search_does_not_reuse_cells() {
    // "aba" needs two distinct 'a' cells; this grid has only one.
    let g = Grid::from_string("abxxxxxxxxxxxxxx").unwrap();
    let mut d = Dict::new();
    d.add("aba");
    let found = g.words(&d);
    assert!(!found.contains("aba"));
}

#[test]
fn search_finds_queen_without_u() {
    let g = Grid::from_string("qeenxxxxxxxxxxxx").unwrap();
    let mut d = Dict::new();
    d.add("queen");
    let found = g.words(&d);
    assert!(found.contains("queen"));
}

#[test]
fn pruning_does_not_change_results() {
    let g = Grid::from_string("gbahwcaickoyelnh").unwrap();
    let mut d = Dict::new();
    for w in ["back", "hack", "whack", "coy", "queen", "ice"] {
        d.add(w);
    }
    let pruned = g.words(&d);
    let unpruned = g.words_unpruned(&d);
    for w in ["back", "hack", "whack", "coy", "queen", "ice"] {
        assert_eq!(pruned.contains(w), unpruned.contains(w));
    }
    assert_eq!(pruned.len(), unpruned.len());
}

#[test]
fn round_trip_preserves_words() {
    let mut d = Dict::new();
    for w in ["cat", "cart", "carts", "dog", "queen", "qeen", "zebra"] {
        d.add(w);
    }
    let packed = d.serialize_packed();
    let back = Dict::deserialize_packed(&packed).unwrap();
    assert_eq!(sorted_words(&d), sorted_words(&back));
}

#[test]
fn round_trip_empty_dictionary() {
    let d = Dict::new();
    let packed = d.serialize_packed();
    assert_eq!(packed, vec![0u8]);
    let back = Dict::deserialize_packed(&packed).unwrap();
    assert!(back.words().is_empty());
}

#[test]
fn decode_empty_stream_fails() {
    assert!(Dict::deserialize_packed(&[]).is_err());
}

#[test]
fn decode_truncated_stream_fails() {
    // A lone push tag with too few code bits.
    assert!(Dict::deserialize_packed(&[0b1000_0000]).is_err());
}

#[test]
fn packed_form_is_byte_aligned_and_compact() {
    let mut d = Dict::new();
    d.add("cat");
    let packed = d.serialize_packed();
    // Three pushes (18 bits) and the terminator (8 bits), padded: 4 bytes.
    assert_eq!(packed.len(), 4);
}

#[test]
fn default_grid_is_void() {
    let g = Grid::default();
    assert_eq!(g.get(0, 0), Some('v'));
    assert_eq!(g.get(1, 0), Some('o'));
    assert_eq!(g.get(2, 0), Some('i'));
    assert_eq!(g.get(3, 0), Some('d'));
    assert_eq!(g.get(3, 3), Some('d'));
}

#[test]
fn default_dict_is_empty() {
    let d = Dict::default();
    assert!(d.words().is_empty());
}

#[test]
fn grid_accepts_unicode_letters() {
    let g = Grid::from_string("ébcdefghijklmnop").unwrap();
    assert_eq!(g.get(0, 0), Some('é'));
    assert_eq!(g.get(3, 3), Some('p'));
}

#[test]
fn grid_from_draws_reads_the_weight_table() {
    let mut draws = vec![0u32; 16];
    draws[1] = 19; // first value drawing 't'
    draws[2] = 149; // last value, drawing 'z'
    draws[3] = 146; // 'q'
    let g = Grid::grid_from_draws(&draws);
    assert_eq!(g.get(0, 0), Some('e'));
    assert_eq!(g.get(1, 0), Some('t'));
    assert_eq!(g.get(2, 0), Some('z'));
    assert_eq!(g.get(3, 0), Some('q'));
}

#[test]
fn random_grid_draws_letters() {
    let g = Grid::random();
    for y in 0..4 {
        for x in 0..4 {
            let c = g.get(x, y).unwrap();
            assert!(c.is_ascii_lowercase());
        }
    }
}

#[test]
fn search_misses_word_without_path() {
    // "cab" has all three letters present but no adjacent path: c and b
    // sit in opposite corners.
    let g = Grid::from_string("cxxxxxxxxxxaxxxb").unwrap();
    let mut d = Dict::new();
    d.add("cab");
    assert!(!g.words(&d).contains("cab"));
}

#[test]
fn round_trip_single_letter_repeats() {
    let mut d = Dict::new();
    for w in ["aaa", "aaaa", "aaaaa", "aab"] {
        d.add(w);
    }
    let packed = d.serialize_packed();
    let back = Dict::deserialize_packed(&packed).unwrap();
    assert_eq!(sorted_words(&d), sorted_words(&back));
}
