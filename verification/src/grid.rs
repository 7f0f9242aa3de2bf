//! A fixed 4x4 grid of letters, addressed by column `x` and row `y` and
//! stored row-major, together with its adjacency model.

use vstd::prelude::*;

verus! {

/// Width of every grid, in cells.
pub const WIDTH: usize = 4;

/// Height of every grid, in cells.
pub const HEIGHT: usize = 4;

/// True for the ASCII letters, of either case.
pub open spec fn is_alpha(c: char) -> bool {
    ('a' <= c && c <= 'z') || ('A' <= c && c <= 'Z')
}

/// Whether a character is alphabetic in the Unicode sense; what
/// `char::is_alphabetic` returns, which depends on the character alone.
pub uninterp spec fn unicode_alpha(c: char) -> bool;

/// Relies on `char::is_alphabetic`: deterministic in the character, and
/// true of every ASCII letter.
#[verifier::external_body]
pub(crate) fn is_alphabetic_exec(c: char) -> (r: bool)
    ensures
        r == unicode_alpha(c),
        is_alpha(c) ==> r,
{
    c.is_alphabetic()
}

/// A fixed-size two-dimensional arrangement of letters, stored row-major:
/// the cell at column `x`, row `y` sits at index `y * WIDTH + x`.
#[derive(Debug, Clone, PartialEq, Eq)]
pub struct Grid {
    letters: Vec<char>,
}

/// The reason a string was rejected as a grid description.
#[derive(Debug, Clone, Copy, PartialEq, Eq)]
pub enum FromStrError {
    /// The string does not hold exactly `WIDTH * HEIGHT` characters.
    InvalidCount,
    /// The string holds the given non-alphabetic character.
    InvalidChar(char),
}

impl View for Grid {
    type V = Seq<char>;

    closed spec fn view(&self) -> Seq<char> {
        self.letters@
    }
}

impl Grid {
    /// Every grid holds exactly one character per cell.
    pub open spec fn wf(&self) -> bool {
        self@.len() == WIDTH * HEIGHT
    }

    /// Parse a grid from a string of exactly `WIDTH * HEIGHT` alphabetic
    /// characters, row-major.
    pub fn from_string(s: &str) -> (r: Result<Grid, FromStrError>)
        ensures
            s@.len() != WIDTH * HEIGHT ==> r == Err::<Grid, FromStrError>(FromStrError::InvalidCount),
            s@.len() == WIDTH * HEIGHT && (exists|i: int|
                0 <= i < s@.len() && !unicode_alpha(s@[i])) ==> {
                let j = choose|j: int|
                    0 <= j < s@.len() && !unicode_alpha(s@[j]) && (forall|i: int|
                        0 <= i < j ==> unicode_alpha(s@[i]));
                r == Err::<Grid, FromStrError>(FromStrError::InvalidChar(s@[j]))
            },
            (s@.len() == WIDTH * HEIGHT && forall|i: int| 0 <= i < s@.len() ==> unicode_alpha(#[trigger] s@[i]))
                ==> (r matches Ok(g) && g@ == s@ && g.wf()),
    {
        let n = s.unicode_len();
        if n != WIDTH * HEIGHT {
            return Err(FromStrError::InvalidCount);
        }
        let mut letters: Vec<char> = Vec::new();
        let mut i: usize = 0;
        while i < n
            invariant
                n == s@.len() == WIDTH * HEIGHT,
                i <= n,
                letters@ == s@.subrange(0, i as int),
                forall|j: int| 0 <= j < i ==> unicode_alpha(#[trigger] s@[j]),
            decreases n - i,
        {
            let c = s.get_char(i);
            if !is_alphabetic_exec(c) {
                assert(!unicode_alpha(s@[i as int]) && forall|j: int|
                    0 <= j < i ==> unicode_alpha(#[trigger] s@[j]));
                return Err(FromStrError::InvalidChar(c));
            }
            letters.push(c);
            i += 1;
        }
        assert(letters@ =~= s@);
        Ok(Grid { letters })
    }

    /// The character at column `x`, row `y`, or `None` when either
    /// coordinate lies outside the grid.
    pub fn get(&self, x: usize, y: usize) -> (r: Option<char>)
        requires
            self.wf(),
        ensures
            x < WIDTH && y < HEIGHT ==> r == Some(self@[y * WIDTH + x]),
            !(x < WIDTH && y < HEIGHT) ==> r is None,
    {
        if x >= WIDTH || y >= HEIGHT {
            return None;
        }
        Some(self.letters[y * WIDTH + x])
    }

    /// Every cell of the grid as `(x, y, character)`, in row-major order.
    pub fn cells(&self) -> (r: Vec<(usize, usize, char)>)
        requires
            self.wf(),
        ensures
            r@.len() == WIDTH * HEIGHT,
            forall|i: int| 0 <= i < r@.len() ==> #[trigger] r@[i]
                == ((i % (WIDTH as int)) as usize, (i / (WIDTH as int)) as usize, self@[i]),
    {
        let mut r: Vec<(usize, usize, char)> = Vec::new();
        let mut i: usize = 0;
        while i < WIDTH * HEIGHT
            invariant
                self.wf(),
                i <= WIDTH * HEIGHT,
                r@.len() == i,
                forall|k: int| 0 <= k < i ==> #[trigger] r@[k]
                    == ((k % (WIDTH as int)) as usize, (k / (WIDTH as int)) as usize, self@[k]),
            decreases WIDTH * HEIGHT - i,
        {
            r.push((i % WIDTH, i / WIDTH, self.letters[i]));
            i += 1;
        }
        r
    }
}

/// Two cells are adjacent when they differ by at most one in each
/// coordinate and are not the same cell.
pub open spec fn adjacent(x: int, y: int, nx: int, ny: int) -> bool {
    &&& -1 <= nx - x <= 1
    &&& -1 <= ny - y <= 1
    &&& !(nx == x && ny == y)
}

/// Executable counterpart of `is_alpha`.
pub fn is_alpha_exec(c: char) -> (r: bool)
    ensures
        r == is_alpha(c),
{
    ('a' <= c && c <= 'z') || ('A' <= c && c <= 'Z')
}

impl Grid {
    /// The adjacent cells of `(x, y)` as `(x, y, character)`, each in
    /// bounds, listed in row-major order.
    pub fn neighbours(&self, x: usize, y: usize) -> (r: Vec<(usize, usize, char)>)
        requires
            self.wf(),
        ensures
            forall|i: int| 0 <= i < r@.len() ==> {
                let (nx, ny, c) = #[trigger] r@[i];
                nx < WIDTH && ny < HEIGHT && adjacent(x as int, y as int, nx as int, ny as int)
                    && c == self@[ny * WIDTH + nx]
            },
            forall|nx: usize, ny: usize|
                nx < WIDTH && ny < HEIGHT && adjacent(x as int, y as int, nx as int, ny as int)
                    ==> exists|i: int| 0 <= i < r@.len()
                        && #[trigger] r@[i] == (nx, ny, self@[ny * WIDTH + nx]),
            forall|i: int, j: int| 0 <= i < j < r@.len()
                ==> #[trigger] cell_index(r@[i].0 as int, r@[i].1 as int)
                    < #[trigger] cell_index(r@[j].0 as int, r@[j].1 as int),
    {
        let mut r: Vec<(usize, usize, char)> = Vec::new();
        if x > WIDTH || y > HEIGHT {
            return r;
        }
        let mut idx: usize = 0;
        while idx < WIDTH * HEIGHT
            invariant
                self.wf(),
                x <= WIDTH,
                y <= HEIGHT,
                idx <= WIDTH * HEIGHT,
                forall|i: int| 0 <= i < r@.len() ==> {
                    let (nx, ny, c) = #[trigger] r@[i];
                    nx < WIDTH && ny < HEIGHT && adjacent(x as int, y as int, nx as int, ny as int)
                        && c == self@[ny * WIDTH + nx]
                },
                forall|nx: usize, ny: usize|
                    nx < WIDTH && ny < HEIGHT && cell_index(nx as int, ny as int) < idx
                        && adjacent(x as int, y as int, nx as int, ny as int)
                        ==> exists|i: int| 0 <= i < r@.len()
                            && #[trigger] r@[i] == (nx, ny, self@[ny * WIDTH + nx]),
                forall|i: int| 0 <= i < r@.len()
                    ==> #[trigger] cell_index(r@[i].0 as int, r@[i].1 as int) < idx,
                forall|i: int, j: int| 0 <= i < j < r@.len()
                    ==> #[trigger] cell_index(r@[i].0 as int, r@[i].1 as int)
                        < #[trigger] cell_index(r@[j].0 as int, r@[j].1 as int),
            decreases WIDTH * HEIGHT - idx,
        {
            let ghost prev = r@;
            let nx = idx % WIDTH;
            let ny = idx / WIDTH;
            let near_x = nx + 1 >= x && x + 1 >= nx;
            let near_y = ny + 1 >= y && y + 1 >= ny;
            if near_x && near_y && !(nx == x && ny == y) {
                r.push((nx, ny, self.letters[idx]));
            }
            proof {
                assert(cell_index(nx as int, ny as int) == idx as int);
                assert forall|nx2: usize, ny2: usize|
                    nx2 < WIDTH && ny2 < HEIGHT && cell_index(nx2 as int, ny2 as int) < idx + 1
                        && adjacent(x as int, y as int, nx2 as int, ny2 as int)
                    implies exists|i: int| 0 <= i < r@.len()
                        && #[trigger] r@[i] == (nx2, ny2, self@[ny2 * WIDTH + nx2]) by {
                    if cell_index(nx2 as int, ny2 as int) < idx as int {
                        let i = choose|i: int| 0 <= i < prev.len()
                            && #[trigger] prev[i] == (nx2, ny2, self@[ny2 * WIDTH + nx2]);
                        assert(r@[i] == (nx2, ny2, self@[ny2 * WIDTH + nx2]));
                    } else {
                        vstd::arithmetic::div_mod::lemma_fundamental_div_mod_converse(
                            idx as int, WIDTH as int, ny2 as int, nx2 as int);
                        assert(nx2 == nx && ny2 == ny);
                        assert(r@[r@.len() - 1] == (nx2, ny2, self@[ny2 * WIDTH + nx2]));
                    }
                }
            }
            idx += 1;
        }
        r
    }
}

/// The row-major index of the cell at column `x`, row `y`.
pub open spec fn cell_index(x: int, y: int) -> int {
    y * (WIDTH as int) + x
}

/// The bottom-right cell of any grid is the last character of the
/// row-major string it was built from: its cell index is the last index.
pub proof fn lemma_last_cell(g: Grid)
    requires
        g.wf(),
    ensures
        g@[cell_index(WIDTH as int - 1, HEIGHT as int - 1)] == g@[g@.len() - 1],
{
}

/// The cells of the fixed placeholder grid: `"void"`, four times over.
pub open spec fn default_grid() -> Seq<char> {
    seq!['v', 'o', 'i', 'd', 'v', 'o', 'i', 'd', 'v', 'o', 'i', 'd', 'v', 'o', 'i', 'd']
}

impl Default for Grid {
    /// The fixed placeholder grid, not meant for real play.
    fn default() -> (g: Grid)
        ensures
            g.wf(),
            g@ == default_grid(),
    {
        let mut letters: Vec<char> = Vec::new();
        let mut i: usize = 0;
        while i < WIDTH
            invariant
                i <= WIDTH,
                letters@.len() == 4 * i,
                forall|j: int| 0 <= j < letters@.len() ==> #[trigger] letters@[j]
                    == default_grid()[j % 4],
            decreases WIDTH - i,
        {
            letters.push('v');
            letters.push('o');
            letters.push('i');
            letters.push('d');
            i += 1;
        }
        proof {
            assert(letters@ =~= default_grid());
        }
        Grid { letters }
    }
}

/// The sum of the letter weights of the sampling table.
pub const WEIGHT_TOTAL: u32 = 150;

/// Whether a character is one that the weight table can draw.
pub open spec fn from_weight_table(c: char) -> bool {
    exists|v: int| 0 <= v < WEIGHT_TOTAL && c == spec_letter_for(v)
}

/// The letter drawn by a value below `WEIGHT_TOTAL`: the fixed table of
/// letter weights, read as cumulative ranges, approximating English
/// letter frequency.
pub open spec fn spec_letter_for(v: int) -> char {
    if v < 19 { 'e' }
    else if v < 32 { 't' }
    else if v < 44 { 'a' }
    else if v < 56 { 'r' }
    else if v < 67 { 'i' }
    else if v < 78 { 'n' }
    else if v < 89 { 'o' }
    else if v < 98 { 's' }
    else if v < 104 { 'd' }
    else if v < 109 { 'c' }
    else if v < 114 { 'h' }
    else if v < 119 { 'l' }
    else if v < 123 { 'f' }
    else if v < 127 { 'm' }
    else if v < 131 { 'p' }
    else if v < 135 { 'u' }
    else if v < 138 { 'g' }
    else if v < 141 { 'y' }
    else if v < 143 { 'w' }
    else if v < 144 { 'b' }
    else if v < 145 { 'j' }
    else if v < 146 { 'k' }
    else if v < 147 { 'q' }
    else if v < 148 { 'v' }
    else if v < 149 { 'x' }
    else { 'z' }
}

/// Executable counterpart of `spec_letter_for`.
fn letter_for(v: u32) -> (c: char)
    ensures
        c == spec_letter_for(v as int),
{
    if v < 19 { 'e' }
    else if v < 32 { 't' }
    else if v < 44 { 'a' }
    else if v < 56 { 'r' }
    else if v < 67 { 'i' }
    else if v < 78 { 'n' }
    else if v < 89 { 'o' }
    else if v < 98 { 's' }
    else if v < 104 { 'd' }
    else if v < 109 { 'c' }
    else if v < 114 { 'h' }
    else if v < 119 { 'l' }
    else if v < 123 { 'f' }
    else if v < 127 { 'm' }
    else if v < 131 { 'p' }
    else if v < 135 { 'u' }
    else if v < 138 { 'g' }
    else if v < 141 { 'y' }
    else if v < 143 { 'w' }
    else if v < 144 { 'b' }
    else if v < 145 { 'j' }
    else if v < 146 { 'k' }
    else if v < 147 { 'q' }
    else if v < 148 { 'v' }
    else if v < 149 { 'x' }
    else { 'z' }
}

/// Relies on rand's `Rng::gen_range`: a value below the given bound.
#[verifier::external_body]
fn draw_below(n: u32) -> (r: u32)
    requires
        n > 0,
    ensures
        r < n,
{
    rand::Rng::gen_range(&mut rand::thread_rng(), 0..n)
}

impl Grid {
    /// The grid whose sixteen cells are the letters drawn by the given
    /// values, each read against the fixed weight table.
    pub fn grid_from_draws(draws: &Vec<u32>) -> (g: Grid)
        requires
            draws@.len() == WIDTH * HEIGHT,
            forall|i: int| 0 <= i < draws@.len() ==> #[trigger] draws@[i] < WEIGHT_TOTAL,
        ensures
            g.wf(),
            forall|i: int| 0 <= i < g@.len() ==> #[trigger] g@[i]
                == spec_letter_for(draws@[i] as int),
    {
        let mut letters: Vec<char> = Vec::new();
        let mut i: usize = 0;
        while i < WIDTH * HEIGHT
            invariant
                draws@.len() == WIDTH * HEIGHT,
                forall|j: int| 0 <= j < draws@.len() ==> #[trigger] draws@[j] < WEIGHT_TOTAL,
                i <= WIDTH * HEIGHT,
                letters@.len() == i,
                forall|j: int| 0 <= j < i ==> #[trigger] letters@[j]
                    == spec_letter_for(draws@[j] as int),
            decreases WIDTH * HEIGHT - i,
        {
            letters.push(letter_for(draws[i]));
            i += 1;
        }
        Grid { letters }
    }

    /// A grid of sixteen letters drawn independently from the fixed
    /// weighted distribution.
    pub fn random() -> (g: Grid)
        ensures
            g.wf(),
            forall|i: int| 0 <= i < g@.len() ==> from_weight_table(#[trigger] g@[i]),
    {
        let mut draws: Vec<u32> = Vec::new();
        let mut i: usize = 0;
        while i < WIDTH * HEIGHT
            invariant
                i <= WIDTH * HEIGHT,
                draws@.len() == i,
                forall|j: int| 0 <= j < i ==> #[trigger] draws@[j] < WEIGHT_TOTAL,
            decreases WIDTH * HEIGHT - i,
        {
            draws.push(draw_below(WEIGHT_TOTAL));
            i += 1;
        }
        let g = Grid::grid_from_draws(&draws);
        proof {
            assert forall|i: int| 0 <= i < g@.len() implies from_weight_table(
                #[trigger] g@[i],
            ) by {
                let v = draws@[i] as int;
                assert(0 <= v < WEIGHT_TOTAL && g@[i] == spec_letter_for(v));
            }
        }
        g
    }
}

} // verus!
