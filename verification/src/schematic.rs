//! The engine schematic: numbers and symbols on a grid, and which numbers
//! stand next to which symbols.
use crate::cubes::{parse_i32, parse_i32_chars};
use crate::pattern::{find_captures, matches_model, regex_captures, Group};
use crate::text::chars_of;
use std::collections::HashSet;
use vstd::prelude::*;

verus! {

broadcast use vstd::std_specs::hash::group_hash_axioms;

/// One value for each cell of the grid, row by row.
#[derive(Debug)]
pub struct Layer<T> {
    pub m: Vec<Vec<T>>,
}

/// What stands in the cells `x0` up to `x1` of the row `y`.
#[derive(Clone, Debug)]
pub struct Token<T> {
    pub tok: T,
    pub x0: usize,
    pub x1: usize,
    pub y: usize,
}

/// A number on the grid.
pub type Num = Token<i32>;

/// A symbol on the grid.
pub type Sym = Token<char>;

/// The cells of the columns `tl_x` up to `br_x` in the rows `tl_y` up to
/// `br_y`.
#[derive(Clone, Copy, Debug, PartialEq, Eq, Structural)]
pub struct Rectangle {
    pub tl_x: usize,
    pub tl_y: usize,
    pub br_x: usize,
    pub br_y: usize,
}

/// The numbers and symbols of a schematic, with a layer that tells for each
/// cell which number covers it and a layer that tells whether a symbol does.
#[derive(Debug)]
pub struct Schematic {
    pub gears: Vec<Sym>,
    pub numbers: Vec<Num>,
    pub number_layer: Layer<Option<usize>>,
    pub symbol_layer: Layer<bool>,
}

/// A token that a match of a pattern can be read as.
pub trait FromMatch: Sized {
    /// The token that the text `text` tells, found from `start` up to `end`
    /// in row `y`, if it tells one.
    spec fn told(text: Seq<char>, start: usize, end: usize, y: usize) -> Option<Self>;

    /// Reads the match `m`, found in row `y`, as a token.
    fn from_match(m: &Group, y: usize) -> (token: Option<Self>)
        ensures
            token == Self::told(m.text@, m.start, m.end, y),
    ;
}

impl FromMatch for Token<i32> {
    /// A number: the text is its value in decimal.
    open spec fn told(text: Seq<char>, start: usize, end: usize, y: usize) -> Option<Self> {
        match parse_i32(text) {
            Some(tok) => Some(Token { tok, x0: start, x1: end, y }),
            None => None,
        }
    }

    fn from_match(m: &Group, y: usize) -> (token: Option<Self>) {
        let text = chars_of(m.text.as_str());
        match parse_i32_chars(&text) {
            Some(tok) => Some(Token { tok, x0: m.start, x1: m.end, y }),
            None => None,
        }
    }
}

impl FromMatch for Token<char> {
    /// A symbol: the first character of the text.
    open spec fn told(text: Seq<char>, start: usize, end: usize, y: usize) -> Option<Self> {
        if text.len() > 0 {
            Some(Token { tok: text[0], x0: start, x1: end, y })
        } else {
            None
        }
    }

    fn from_match(m: &Group, y: usize) -> (token: Option<Self>) {
        let text = chars_of(m.text.as_str());
        if text.len() > 0 {
            Some(Token { tok: text[0], x0: m.start, x1: m.end, y })
        } else {
            None
        }
    }
}

/// The token that the match `groups`, found in row `y`, tells by the whole
/// of what it matched.
pub open spec fn token_told<T: FromMatch>(groups: Seq<Option<(int, int, Seq<char>)>>, y: usize)
    -> Option<T> {
    if groups.len() > 0 {
        match groups[0] {
            Some(g) => if 0 <= g.0 <= usize::MAX && 0 <= g.1 <= usize::MAX {
                T::told(g.2, g.0 as usize, g.1 as usize, y)
            } else {
                None
            },
            None => None,
        }
    } else {
        None
    }
}

/// The tokens that the matches `found`, all in row `y`, tell, in order,
/// where each of them tells one.
pub open spec fn tokens_told<T: FromMatch>(
    found: Seq<Seq<Option<(int, int, Seq<char>)>>>,
    y: usize,
) -> Option<Seq<T>>
    decreases found.len(),
{
    if found.len() == 0 {
        Some(Seq::empty())
    } else {
        match (tokens_told::<T>(found.drop_last(), y), token_told::<T>(found.last(), y)) {
            (Some(tokens), Some(token)) => Some(tokens.push(token)),
            _ => None,
        }
    }
}

/// One match that tells no token leaves the matches without tokens.
pub proof fn lemma_tokens_told_fails<T: FromMatch>(
    found: Seq<Seq<Option<(int, int, Seq<char>)>>>,
    y: usize,
    k: int,
)
    requires
        0 <= k < found.len(),
        token_told::<T>(found[k], y) is None,
    ensures
        tokens_told::<T>(found, y) is None,
    decreases found.len(),
{
    if k < found.len() - 1 {
        assert(found.drop_last()[k] == found[k]);
        lemma_tokens_told_fails::<T>(found.drop_last(), y, k);
    }
}

/// The tokens that the matches `found`, all in row `y`, tell, in order. The
/// result is `None` where a match tells no token.
#[verifier::loop_isolation(false)]
pub fn tokens_from_captures<T: FromMatch>(found: &Vec<Vec<Option<Group>>>, y: usize) -> (tokens:
    Option<Vec<T>>)
    ensures
        match tokens {
            Some(list) => tokens_told::<T>(matches_model(found@), y) == Some(list@),
            None => tokens_told::<T>(matches_model(found@), y) is None,
        },
{
    let ghost all = matches_model(found@);
    let mut tokens: Vec<T> = Vec::new();
    let mut i: usize = 0;
    proof {
        assert(all.take(0) == Seq::<Seq<Option<(int, int, Seq<char>)>>>::empty());
    }
    while i < found.len()
        invariant
            i <= found.len(),
            tokens_told::<T>(all.take(i as int), y) == Some(tokens@),
        decreases found.len() - i,
    {
        proof {
            assert(all.take(i + 1).drop_last() == all.take(i as int));
            assert(all.take(i + 1).last() == all[i as int]);
            assert(all[i as int] == crate::pattern::match_model(found@[i as int]@));
        }
        let token: Option<T> = if found[i].len() > 0 {
            match &found[i][0] {
                Some(g) => T::from_match(g, y),
                None => None,
            }
        } else {
            None
        };
        match token {
            Some(t) => {
                tokens.push(t);
            },
            None => {
                proof {
                    lemma_tokens_told_fails::<T>(all, y, i as int);
                }
                return None;
            },
        }
        i += 1;
    }
    proof {
        assert(all.take(found.len() as int) == all);
    }
    Some(tokens)
}

/// The tokens that the pattern `re` finds in `line`, the row `y`.
pub open spec fn tokens_of<T: FromMatch>(re: Seq<char>, y: usize, line: Seq<char>) -> Option<Seq<T>> {
    match regex_captures(re, line) {
        Some(found) => tokens_told::<T>(found, y),
        None => None,
    }
}

/// The tokens that the pattern `re` finds in `line`, the row `y`: one for
/// each match, in order. The result is `None` where the pattern is refused
/// and where a match tells no token.
pub fn get_tokens<T: FromMatch>(re: &str, y: usize, line: &str) -> (tokens: Option<Vec<T>>)
    ensures
        match tokens {
            Some(list) => tokens_of::<T>(re@, y, line@) == Some(list@),
            None => tokens_of::<T>(re@, y, line@) is None,
        },
{
    match find_captures(re, line) {
        Some(found) => tokens_from_captures::<T>(&found, y),
        None => None,
    }
}

impl Rectangle {
    /// The number of columns of the rectangle.
    pub open spec fn width(self) -> int {
        if self.tl_x < self.br_x {
            self.br_x - self.tl_x
        } else {
            0
        }
    }

    /// The number of rows of the rectangle.
    pub open spec fn height(self) -> int {
        if self.tl_y < self.br_y {
            self.br_y - self.tl_y
        } else {
            0
        }
    }

    /// Whether the cell in row `y` and column `x` lies in the rectangle.
    pub open spec fn holds(self, y: int, x: int) -> bool {
        self.tl_y <= y < self.br_y && self.tl_x <= x < self.br_x
    }

    /// The cells of the rectangle, each as its row and its column, row by
    /// row and in each row from left to right.
    pub open spec fn cells(self) -> Seq<(usize, usize)> {
        Seq::new(
            (self.height() * self.width()) as nat,
            |k: int|
                ((self.tl_y + k / self.width()) as usize, (self.tl_x + k % self.width()) as usize),
        )
    }

    /// The cells of the rectangle, each as its row and its column, row by
    /// row and in each row from left to right.
    pub fn to_coords_yx(&self) -> (coords: Vec<(usize, usize)>)
        ensures
            coords@ == self.cells(),
    {
        let mut v: Vec<(usize, usize)> = Vec::new();
        if self.tl_x >= self.br_x || self.tl_y >= self.br_y {
            proof {
                assert(self.height() * self.width() == 0) by (nonlinear_arith)
                    requires
                        self.width() == 0 || self.height() == 0,
                ;
                assert(v@ =~= self.cells());
            }
            return v;
        }
        let ghost w = self.width();
        let mut j: usize = self.tl_y;
        while j < self.br_y
            invariant
                self.tl_x < self.br_x,
                w == self.br_x - self.tl_x,
                self.tl_y <= j <= self.br_y,
                v.len() == (j - self.tl_y) * w,
                forall|k: int|
                    0 <= k < v.len() ==> (#[trigger] v@[k]) == (
                        (self.tl_y + k / w) as usize,
                        (self.tl_x + k % w) as usize,
                    ),
            decreases self.br_y - j,
        {
            let mut i: usize = self.tl_x;
            while i < self.br_x
                invariant
                    self.tl_x <= i <= self.br_x,
                    self.tl_x < self.br_x,
                    w == self.br_x - self.tl_x,
                    self.tl_y <= j < self.br_y,
                    v.len() == (j - self.tl_y) * w + (i - self.tl_x),
                    forall|k: int|
                        0 <= k < v.len() ==> (#[trigger] v@[k]) == (
                            (self.tl_y + k / w) as usize,
                            (self.tl_x + k % w) as usize,
                        ),
                decreases self.br_x - i,
            {
                proof {
                    let k = v.len() as int;
                    vstd::arithmetic::div_mod::lemma_fundamental_div_mod_converse(
                        k,
                        w,
                        j - self.tl_y,
                        i - self.tl_x,
                    );
                }
                v.push((j, i));
                i += 1;
            }
            proof {
                assert((j - self.tl_y) * w + w == (j + 1 - self.tl_y) * w) by (nonlinear_arith);
            }
            j += 1;
        }
        proof {
            assert(v@ =~= self.cells());
        }
        v
    }

    /// Each cell that `cells` lists lies in the rectangle.
    pub proof fn lemma_cells_inside(self, k: int)
        requires
            0 <= k < self.cells().len(),
        ensures
            self.holds(self.cells()[k].0 as int, self.cells()[k].1 as int),
    {
        let w = self.width();
        let h = self.height();
        assert(w > 0 && h > 0) by (nonlinear_arith)
            requires
                0 <= k < h * w,
                w >= 0,
                h >= 0,
        ;
        vstd::arithmetic::div_mod::lemma_fundamental_div_mod(k, w);
        assert(0 <= k % w < w);
        assert(0 <= k / w < h) by (nonlinear_arith)
            requires
                0 <= k < h * w,
                w > 0,
                k == w * (k / w) + k % w,
                0 <= k % w < w,
        ;
    }

    /// Each cell of the rectangle is among those that `cells` lists: the
    /// result is its place there.
    pub proof fn lemma_cells_complete(self, y: int, x: int) -> (k: int)
        requires
            self.holds(y, x),
        ensures
            0 <= k < self.cells().len(),
            self.cells()[k] == (y as usize, x as usize),
    {
        let w = self.width();
        let h = self.height();
        let k = (y - self.tl_y) * w + (x - self.tl_x);
        assert(0 <= k < h * w) by (nonlinear_arith)
            requires
                k == (y - self.tl_y) * w + (x - self.tl_x),
                0 <= y - self.tl_y < h,
                0 <= x - self.tl_x < w,
        ;
        vstd::arithmetic::div_mod::lemma_fundamental_div_mod_converse(
            k,
            w,
            y - self.tl_y,
            x - self.tl_x,
        );
        k
    }
}

/// A schematic as plain values.
pub ghost struct Plan {
    pub gears: Seq<Sym>,
    pub numbers: Seq<Num>,
    pub number_rows: Seq<Seq<Option<usize>>>,
    pub symbol_rows: Seq<Seq<bool>>,
}

impl View for Schematic {
    type V = Plan;

    open spec fn view(&self) -> Plan {
        Plan {
            gears: self.gears@,
            numbers: self.numbers@,
            number_rows: Seq::new(self.number_layer.m.len() as nat, |y: int| self.number_layer.m[y]@),
            symbol_rows: Seq::new(self.symbol_layer.m.len() as nat, |y: int| self.symbol_layer.m[y]@),
        }
    }
}

/// Whether the token `t` covers the column `x`.
pub open spec fn covers<T>(t: Token<T>, x: int) -> bool {
    t.x0 <= x < t.x1
}

/// The place of the last of the numbers `nums` that covers the column `x`,
/// if one does.
pub open spec fn last_cover(nums: Seq<Num>, x: int) -> Option<int>
    decreases nums.len(),
{
    if nums.len() == 0 {
        None
    } else if covers(nums.last(), x) {
        Some(nums.len() - 1)
    } else {
        last_cover(nums.drop_last(), x)
    }
}

/// Whether one of the symbols `syms` covers the column `x`.
pub open spec fn any_cover(syms: Seq<Sym>, x: int) -> bool {
    exists|k: int| 0 <= k < syms.len() && covers(#[trigger] syms[k], x)
}

/// The row of the number layer for a row of `width` columns with the
/// numbers `nums`, where `base` numbers are known already: each cell under a
/// number holds the place of that number among all.
pub open spec fn number_row(width: int, base: int, nums: Seq<Num>) -> Seq<Option<usize>> {
    Seq::new(
        width as nat,
        |x: int|
            match last_cover(nums, x) {
                Some(k) => Some((base + k) as usize),
                None => None,
            },
    )
}

/// The row of the symbol layer for a row of `width` columns with the symbols
/// `syms`.
pub open spec fn symbol_row(width: int, syms: Seq<Sym>) -> Seq<bool> {
    Seq::new(width as nat, |x: int| any_cover(syms, x))
}

/// Those of the symbols `syms` that are stars, in order.
pub open spec fn stars(syms: Seq<Sym>) -> Seq<Sym>
    decreases syms.len(),
{
    if syms.len() == 0 {
        Seq::empty()
    } else if syms.last().tok == '*' {
        stars(syms.drop_last()).push(syms.last())
    } else {
        stars(syms.drop_last())
    }
}

/// Whether a row of `width` columns with the numbers `nums` and the symbols
/// `syms` can be added to `plan`: the row is as wide as the rows before it,
/// each token lies within the row, no symbol stands on a number, and the
/// numbers can still be counted.
pub open spec fn row_fits(plan: Plan, width: int, nums: Seq<Num>, syms: Seq<Sym>) -> bool {
    &&& plan.symbol_rows.len() > 0 ==> plan.symbol_rows[0].len() == width
    &&& forall|k: int| 0 <= k < nums.len() ==> (#[trigger] nums[k]).x0 <= nums[k].x1 <= width
    &&& forall|k: int| 0 <= k < syms.len() ==> (#[trigger] syms[k]).x0 <= syms[k].x1 <= width
    &&& forall|x: int| 0 <= x < width && #[trigger] any_cover(syms, x) ==> last_cover(nums, x) is None
    &&& plan.numbers.len() + nums.len() <= usize::MAX
    &&& plan.symbol_rows.len() < usize::MAX
}

/// The plan with one row more.
pub open spec fn with_row(plan: Plan, width: int, nums: Seq<Num>, syms: Seq<Sym>) -> Plan {
    Plan {
        gears: plan.gears + stars(syms),
        numbers: plan.numbers + nums,
        number_rows: plan.number_rows.push(number_row(width, plan.numbers.len() as int, nums)),
        symbol_rows: plan.symbol_rows.push(symbol_row(width, syms)),
    }
}

/// A row of `width` cells without a number.
fn blank_numbers(width: usize) -> (row: Vec<Option<usize>>)
    ensures
        row.len() == width,
        forall|x: int| 0 <= x < width ==> row@[x] is None,
{
    let mut row: Vec<Option<usize>> = Vec::new();
    let mut x: usize = 0;
    while x < width
        invariant
            x <= width,
            row.len() == x,
            forall|c: int| 0 <= c < x ==> row@[c] is None,
        decreases width - x,
    {
        row.push(None);
        x += 1;
    }
    row
}

/// A row of `width` cells without a symbol.
fn blank_symbols(width: usize) -> (row: Vec<bool>)
    ensures
        row.len() == width,
        forall|x: int| 0 <= x < width ==> !row@[x],
{
    let mut row: Vec<bool> = Vec::new();
    let mut x: usize = 0;
    while x < width
        invariant
            x <= width,
            row.len() == x,
            forall|c: int| 0 <= c < x ==> !row@[c],
        decreases width - x,
    {
        row.push(false);
        x += 1;
    }
    row
}

/// Whether each of the tokens lies within a row of `width` columns.
fn tokens_within<T>(tokens: &Vec<Token<T>>, width: usize) -> (within: bool)
    ensures
        within == forall|k: int|
            0 <= k < tokens.len() ==> (#[trigger] tokens@[k]).x0 <= tokens@[k].x1 <= width,
{
    let mut k: usize = 0;
    while k < tokens.len()
        invariant
            k <= tokens.len(),
            forall|c: int| 0 <= c < k ==> (#[trigger] tokens@[c]).x0 <= tokens@[c].x1 <= width,
        decreases tokens.len() - k,
    {
        if !(tokens[k].x0 <= tokens[k].x1 && tokens[k].x1 <= width) {
            return false;
        }
        k += 1;
    }
    true
}

/// The row of the number layer for the numbers `nums`.
fn number_mask(width: usize, base: usize, nums: &Vec<Num>) -> (row: Vec<Option<usize>>)
    requires
        forall|k: int| 0 <= k < nums.len() ==> (#[trigger] nums@[k]).x0 <= nums@[k].x1 <= width,
        base + nums.len() <= usize::MAX,
    ensures
        row@ == number_row(width as int, base as int, nums@),
{
    let mut row = blank_numbers(width);
    let mut k: usize = 0;
    proof {
        assert(nums@.take(0) == Seq::<Num>::empty());
    }
    while k < nums.len()
        invariant
            k <= nums.len(),
            row.len() == width,
            base + nums.len() <= usize::MAX,
            forall|c: int| 0 <= c < nums.len() ==> (#[trigger] nums@[c]).x0 <= nums@[c].x1 <= width,
            forall|x: int|
                0 <= x < width ==> row@[x] == match last_cover(nums@.take(k as int), x) {
                    Some(c) => Some((base + c) as usize),
                    None => None,
                },
        decreases nums.len() - k,
    {
        let x0: usize = nums[k].x0;
        let x1: usize = nums[k].x1;
        let ghost before = row@;
        let mut i: usize = x0;
        while i < x1
            invariant
                x0 <= i <= x1 <= width,
                row.len() == width,
                k < nums.len(),
                base + nums.len() <= usize::MAX,
                forall|x: int|
                    0 <= x < width ==> row@[x] == (if x0 <= x < i {
                        Some((base + k) as usize)
                    } else {
                        before[x]
                    }),
            decreases x1 - i,
        {
            row.set(i, Some(base + k));
            i += 1;
        }
        proof {
            assert(nums@.take(k + 1).drop_last() == nums@.take(k as int));
            assert(nums@.take(k + 1).last() == nums@[k as int]);
        }
        k += 1;
    }
    proof {
        assert(nums@.take(nums.len() as int) == nums@);
        assert(row@ =~= number_row(width as int, base as int, nums@));
    }
    row
}

/// The row of the symbol layer for the symbols `syms`.
fn symbol_mask(width: usize, syms: &Vec<Sym>) -> (row: Vec<bool>)
    requires
        forall|k: int| 0 <= k < syms.len() ==> (#[trigger] syms@[k]).x0 <= syms@[k].x1 <= width,
    ensures
        row@ == symbol_row(width as int, syms@),
{
    let mut row = blank_symbols(width);
    let mut k: usize = 0;
    while k < syms.len()
        invariant
            k <= syms.len(),
            row.len() == width,
            forall|c: int| 0 <= c < syms.len() ==> (#[trigger] syms@[c]).x0 <= syms@[c].x1 <= width,
            forall|x: int| 0 <= x < width ==> row@[x] == any_cover(syms@.take(k as int), x),
        decreases syms.len() - k,
    {
        let x0: usize = syms[k].x0;
        let x1: usize = syms[k].x1;
        let ghost before = row@;
        let mut i: usize = x0;
        while i < x1
            invariant
                x0 <= i <= x1 <= width,
                row.len() == width,
                forall|x: int|
                    0 <= x < width ==> row@[x] == (if x0 <= x < i {
                        true
                    } else {
                        before[x]
                    }),
            decreases x1 - i,
        {
            row.set(i, true);
            i += 1;
        }
        proof {
            let more = syms@.take(k + 1);
            let less = syms@.take(k as int);
            assert forall|x: int| 0 <= x < width implies row@[x] == any_cover(more, x) by {
                if any_cover(less, x) {
                    let c = choose|c: int| 0 <= c < less.len() && covers(#[trigger] less[c], x);
                    assert(more[c] == less[c]);
                }
                if covers(syms@[k as int], x) {
                    assert(more[k as int] == syms@[k as int]);
                }
                if any_cover(more, x) {
                    let c = choose|c: int| 0 <= c < more.len() && covers(#[trigger] more[c], x);
                    if c < k {
                        assert(less[c] == more[c]);
                    }
                }
            }
        }
        k += 1;
    }
    proof {
        assert(syms@.take(syms.len() as int) == syms@);
        assert(row@ =~= symbol_row(width as int, syms@));
    }
    row
}

/// Joins a symbol to the gears if it is a star.
fn push_stars(gears: &mut Vec<Sym>, syms: &Vec<Sym>)
    ensures
        final(gears)@ == old(gears)@ + stars(syms@),
{
    let mut k: usize = 0;
    proof {
        assert(syms@.take(0) == Seq::<Sym>::empty());
        assert(old(gears)@ + stars(syms@.take(0)) =~= old(gears)@);
    }
    while k < syms.len()
        invariant
            k <= syms.len(),
            gears@ == old(gears)@ + stars(syms@.take(k as int)),
        decreases syms.len() - k,
    {
        proof {
            assert(syms@.take(k + 1).drop_last() == syms@.take(k as int));
            assert(syms@.take(k + 1).last() == syms@[k as int]);
        }
        if syms[k].tok == '*' {
            let star = Token { tok: syms[k].tok, x0: syms[k].x0, x1: syms[k].x1, y: syms[k].y };
            proof {
                assert(star == syms@[k as int]);
                assert((old(gears)@ + stars(syms@.take(k as int))).push(star) =~= old(gears)@
                    + stars(syms@.take(k as int)).push(star));
            }
            gears.push(star);
        }
        k += 1;
    }
    proof {
        assert(syms@.take(syms.len() as int) == syms@);
    }
}

impl Schematic {
    /// A schematic without rows.
    pub fn empty() -> (schematic: Schematic)
        ensures
            schematic.wf(),
            schematic.rows() == 0,
            schematic.numbers.len() == 0,
            schematic.gears.len() == 0,
    {
        Schematic {
            gears: Vec::new(),
            numbers: Vec::new(),
            number_layer: Layer { m: Vec::new() },
            symbol_layer: Layer { m: Vec::new() },
        }
    }

    /// Adds a row of `width` columns with the numbers `nums` and the symbols
    /// `syms` below the rows of the schematic. A row that does not fit is
    /// refused, and the schematic stays as it was.
    #[verifier::loop_isolation(false)]
    pub fn add_row(&mut self, width: usize, nums: Vec<Num>, syms: Vec<Sym>) -> (added: bool)
        requires
            old(self).wf(),
        ensures
            final(self).wf(),
            added == row_fits(old(self)@, width as int, nums@, syms@),
            added ==> final(self)@ == with_row(old(self)@, width as int, nums@, syms@),
            !added ==> final(self)@ == old(self)@,
    {
        let rows: usize = self.symbol_layer.m.len();
        if rows > 0 && self.symbol_layer.m[0].len() != width {
            proof {
                assert(old(self)@.symbol_rows[0] == self.symbol_layer.m[0]@);
            }
            return false;
        }
        proof {
            if rows > 0 {
                assert(old(self)@.symbol_rows[0] == self.symbol_layer.m[0]@);
            }
        }
        if !tokens_within(&nums, width) || !tokens_within(&syms, width) {
            return false;
        }
        if nums.len() > usize::MAX - self.numbers.len() || rows == usize::MAX {
            return false;
        }
        let base: usize = self.numbers.len();
        let nmask = number_mask(width, base, &nums);
        let smask = symbol_mask(width, &syms);
        let mut x: usize = 0;
        while x < width
            invariant
                x <= width,
                nmask@ == number_row(width as int, base as int, nums@),
                smask@ == symbol_row(width as int, syms@),
                forall|c: int|
                    0 <= c < x && #[trigger] any_cover(syms@, c) ==> last_cover(nums@, c) is None,
            decreases width - x,
        {
            if smask[x] && nmask[x].is_some() {
                proof {
                    assert(any_cover(syms@, x as int));
                    assert(last_cover(nums@, x as int) is Some);
                }
                return false;
            }
            proof {
                if any_cover(syms@, x as int) {
                    assert(smask@[x as int]);
                    assert(nmask@[x as int] is None);
                }
            }
            x += 1;
        }
        let ghost before = *old(self);
        push_stars(&mut self.gears, &syms);
        let ghost given = nums@;
        let mut extra = nums;
        self.numbers.append(&mut extra);
        self.number_layer.m.push(nmask);
        self.symbol_layer.m.push(smask);
        proof {
            assert(self@.number_rows =~= with_row(
                before@,
                width as int,
                given,
                syms@,
            ).number_rows);
            assert(self@.symbol_rows =~= with_row(
                before@,
                width as int,
                given,
                syms@,
            ).symbol_rows);
            assert forall|y: int, c: int| self.on_grid(y, c) implies match #[trigger] self.number_at(
                y,
                c,
            ) {
                Some(place) => place < self.numbers.len(),
                None => true,
            } by {
                if y < rows {
                    assert(before.on_grid(y, c));
                    assert(self.number_at(y, c) == before.number_at(y, c));
                } else {
                    lemma_last_cover_in_range(given, c);
                }
            }
            assert forall|y: int| 0 <= y < self.rows() implies (
            #[trigger] self.symbol_layer.m[y]).len() == self.columns() by {
                if y < rows {
                    assert(self.symbol_layer.m[y] == before.symbol_layer.m[y]);
                }
            }
            assert forall|y: int| 0 <= y < self.rows() implies (
            #[trigger] self.number_layer.m[y]).len() == self.columns() by {
                if y < rows {
                    assert(self.number_layer.m[y] == before.number_layer.m[y]);
                }
            }
        }
        true
    }
}

/// The last number that covers a column is one of the numbers.
pub proof fn lemma_last_cover_in_range(nums: Seq<Num>, x: int)
    ensures
        match last_cover(nums, x) {
            Some(k) => 0 <= k < nums.len() && covers(nums[k], x),
            None => forall|k: int| 0 <= k < nums.len() ==> !covers(#[trigger] nums[k], x),
        },
    decreases nums.len(),
{
    if nums.len() > 0 && !covers(nums.last(), x) {
        lemma_last_cover_in_range(nums.drop_last(), x);
        assert forall|k: int| 0 <= k < nums.drop_last().len() implies nums.drop_last()[k]
            == nums[k] by {}
        match last_cover(nums, x) {
            Some(k) => {
                assert(nums.drop_last()[k] == nums[k]);
            },
            None => {
                assert forall|k: int| 0 <= k < nums.len() implies !covers(#[trigger] nums[k], x) by {
                    if k < nums.len() - 1 {
                        assert(nums.drop_last()[k] == nums[k]);
                    }
                }
            },
        }
    }
}

impl Schematic {
    /// The number of rows of the grid.
    pub open spec fn rows(&self) -> int {
        self.symbol_layer.m.len() as int
    }

    /// The number of columns of the grid: the length of its first row.
    pub open spec fn columns(&self) -> int {
        if self.symbol_layer.m.len() > 0 {
            self.symbol_layer.m[0].len() as int
        } else {
            0
        }
    }

    /// Whether the cell in row `y` and column `x` lies on the grid.
    pub open spec fn on_grid(&self, y: int, x: int) -> bool {
        0 <= y < self.rows() && 0 <= x < self.columns()
    }

    /// Whether a symbol stands in the cell in row `y` and column `x`.
    pub open spec fn symbol_at(&self, y: int, x: int) -> bool {
        self.symbol_layer.m[y][x]
    }

    /// The place, among the numbers, of the number that covers the cell in
    /// row `y` and column `x`, if one does.
    pub open spec fn number_at(&self, y: int, x: int) -> Option<usize> {
        self.number_layer.m[y][x]
    }

    /// A schematic is well formed when its two layers have the same rows,
    /// all rows are as long as the first, and each cell that a number covers
    /// names a number that there is.
    pub open spec fn wf(&self) -> bool {
        &&& self.number_layer.m.len() == self.symbol_layer.m.len()
        &&& forall|y: int|
            0 <= y < self.rows() ==> (#[trigger] self.symbol_layer.m[y]).len() == self.columns()
        &&& forall|y: int|
            0 <= y < self.rows() ==> (#[trigger] self.number_layer.m[y]).len() == self.columns()
        &&& forall|y: int, x: int|
            self.on_grid(y, x) ==> match #[trigger] self.number_at(y, x) {
                Some(place) => place < self.numbers.len(),
                None => true,
            }
    }

    /// The cells of a token and those around it, as far as they lie on the
    /// grid: one column to the left and to the right of the token, one row
    /// above and below it.
    pub open spec fn covered(&self, x0: usize, x1: usize, y: usize) -> Rectangle {
        Rectangle {
            tl_x: if x0 == 0 {
                0
            } else {
                (x0 - 1) as usize
            },
            tl_y: if y == 0 {
                0
            } else {
                (y - 1) as usize
            },
            br_x: if x1 + 1 < self.columns() {
                (x1 + 1) as usize
            } else {
                self.columns() as usize
            },
            br_y: if y + 2 < self.rows() {
                (y + 2) as usize
            } else {
                self.rows() as usize
            },
        }
    }

    /// Whether a symbol stands in a cell of `rect`.
    pub open spec fn symbol_in(&self, rect: Rectangle) -> bool {
        exists|y: int, x: int| rect.holds(y, x) && #[trigger] self.symbol_at(y, x)
    }

    /// Whether the cells of `rect` lie on the grid.
    pub open spec fn fits(&self, rect: Rectangle) -> bool {
        rect.height() > 0 && rect.width() > 0 ==> rect.br_y <= self.rows() && rect.br_x
            <= self.columns()
    }

    /// The places of the numbers that cover the cells `cells`, each once, in
    /// the order in which the cells meet them.
    pub open spec fn numbers_on(&self, cells: Seq<(usize, usize)>) -> Seq<usize>
        decreases cells.len(),
    {
        if cells.len() == 0 {
            Seq::empty()
        } else {
            let before = self.numbers_on(cells.drop_last());
            match self.number_at(cells.last().0 as int, cells.last().1 as int) {
                Some(place) => if before.contains(place) {
                    before
                } else {
                    before.push(place)
                },
                None => before,
            }
        }
    }

    /// Whether the number at `place` stands next to a symbol.
    pub open spec fn is_part(&self, place: int) -> bool {
        self.symbol_in(
            self.covered(self.numbers[place].x0, self.numbers[place].x1, self.numbers[place].y),
        )
    }

    /// The places of the first `upto` numbers that stand next to a symbol, in
    /// order.
    pub open spec fn parts(&self, upto: int) -> Seq<int>
        decreases upto,
    {
        if upto <= 0 {
            Seq::empty()
        } else if self.is_part(upto - 1) {
            self.parts(upto - 1).push(upto - 1)
        } else {
            self.parts(upto - 1)
        }
    }

    /// Whether the token can be surrounded without leaving the range of
    /// `usize`.
    pub open spec fn in_reach<T>(n: &Token<T>) -> bool {
        n.x1 < usize::MAX && n.y < usize::MAX - 1
    }

    /// The cells of the token `n` and those around it, as far as they lie on
    /// the grid.
    pub fn covered_rectangle<T>(&self, n: &Token<T>) -> (rect: Rectangle)
        requires
            self.rows() > 0,
            Self::in_reach(n),
        ensures
            rect == self.covered(n.x0, n.x1, n.y),
            rect.br_x <= self.columns(),
            rect.br_y <= self.rows(),
    {
        let x_min: usize = if n.x0 == 0 {
            0
        } else {
            n.x0 - 1
        };
        let width: usize = self.symbol_layer.m[0].len();
        let x_max: usize = if n.x1 + 1 < width {
            n.x1 + 1
        } else {
            width
        };
        let y_min: usize = if n.y == 0 {
            0
        } else {
            n.y - 1
        };
        let height: usize = self.symbol_layer.m.len();
        let y_max: usize = if n.y + 2 < height {
            n.y + 2
        } else {
            height
        };
        Rectangle { tl_x: x_min, tl_y: y_min, br_x: x_max, br_y: y_max }
    }

    /// Whether the number `n` stands next to a symbol: in a cell of `n` or
    /// around it.
    pub fn adjacent_to_symbol(&self, n: &Num) -> (adjacent: bool)
        requires
            self.wf(),
            self.rows() > 0,
            Self::in_reach(n),
        ensures
            adjacent == self.symbol_in(self.covered(n.x0, n.x1, n.y)),
    {
        let rect = self.covered_rectangle(n);
        let coords = rect.to_coords_yx();
        let mut k: usize = 0;
        while k < coords.len()
            invariant
                k <= coords.len(),
                self.wf(),
                coords@ == rect.cells(),
                rect == self.covered(n.x0, n.x1, n.y),
                rect.br_x <= self.columns(),
                rect.br_y <= self.rows(),
                forall|c: int|
                    0 <= c < k ==> !self.symbol_at(
                        (#[trigger] coords@[c]).0 as int,
                        coords@[c].1 as int,
                    ),
            decreases coords.len() - k,
        {
            let (j, i) = coords[k];
            proof {
                rect.lemma_cells_inside(k as int);
            }
            if self.symbol_layer.m[j][i] {
                proof {
                    assert(rect.holds(j as int, i as int) && self.symbol_at(j as int, i as int));
                }
                return true;
            }
            k += 1;
        }
        proof {
            if self.symbol_in(rect) {
                let (y, x) = choose|y: int, x: int| rect.holds(y, x) && #[trigger] self.symbol_at(y, x);
                let c = rect.lemma_cells_complete(y, x);
                assert(coords@[c] == (y as usize, x as usize));
            }
        }
        false
    }

    /// The numbers that cover a cell of `rect`, each once, in the order in
    /// which the cells of `rect` meet them.
    pub fn get_numbers_on_rectangle(&self, rect: Rectangle) -> (found: Vec<&Num>)
        requires
            self.wf(),
            self.fits(rect),
        ensures
            found.len() == self.numbers_on(rect.cells()).len(),
            forall|k: int|
                0 <= k < found.len() ==> (#[trigger] self.numbers_on(rect.cells())[k])
                    < self.numbers.len(),
            forall|k: int|
                0 <= k < found.len() ==> *(#[trigger] found@[k]) == self.numbers[self.numbers_on(
                    rect.cells(),
                )[k] as int],
    {
        let mut s: HashSet<usize> = HashSet::new();
        let mut v: Vec<&Num> = Vec::new();
        let coords = rect.to_coords_yx();
        let ghost cells = rect.cells();
        let mut k: usize = 0;
        proof {
            assert(cells.take(0) == Seq::<(usize, usize)>::empty());
        }
        while k < coords.len()
            invariant
                k <= coords.len(),
                self.wf(),
                self.fits(rect),
                cells == rect.cells(),
                coords@ == cells,
                s@ == self.numbers_on(cells.take(k as int)).to_set(),
                v.len() == self.numbers_on(cells.take(k as int)).len(),
                forall|c: int|
                    0 <= c < v.len() ==> (#[trigger] self.numbers_on(cells.take(k as int))[c])
                        < self.numbers.len(),
                forall|c: int|
                    0 <= c < v.len() ==> *(#[trigger] v@[c]) == self.numbers[self.numbers_on(
                        cells.take(k as int),
                    )[c] as int],
            decreases coords.len() - k,
        {
            let (y, x) = coords[k];
            proof {
                rect.lemma_cells_inside(k as int);
                assert(rect.height() > 0 && rect.width() > 0);
                assert(self.on_grid(y as int, x as int));
                assert(cells.take(k + 1).drop_last() == cells.take(k as int));
                assert(cells.take(k + 1).last() == (y, x));
            }
            let ghost before = self.numbers_on(cells.take(k as int));
            match self.number_layer.m[y][x] {
                Some(idx) => {
                    assert(self.number_at(y as int, x as int) == Some(idx));
                    if !s.contains(&idx) {
                        proof {
                            before.lemma_push_to_set_commute(idx);
                        }
                        s.insert(idx);
                        v.push(&self.numbers[idx]);
                    }
                },
                None => {},
            }
            k += 1;
        }
        proof {
            assert(cells.take(coords.len() as int) == cells);
        }
        v
    }

    /// The numbers that stand in the cells of the symbol `s` or around it,
    /// each once.
    pub fn get_adjacent_numbers(&self, s: &Sym) -> (found: Vec<&Num>)
        requires
            self.wf(),
            self.rows() > 0,
            Self::in_reach(s),
        ensures
            found.len() == self.numbers_on(self.covered(s.x0, s.x1, s.y).cells()).len(),
            forall|k: int|
                0 <= k < found.len() ==> *(#[trigger] found@[k]) == self.numbers[self.numbers_on(
                    self.covered(s.x0, s.x1, s.y).cells(),
                )[k] as int],
    {
        let rect = self.covered_rectangle(s);
        self.get_numbers_on_rectangle(rect)
    }

    /// The numbers that stand next to a symbol, in their order.
    pub fn get_part_numbers(&self) -> (found: Vec<&Num>)
        requires
            self.wf(),
            self.numbers.len() > 0 ==> self.rows() > 0,
            forall|k: int| 0 <= k < self.numbers.len() ==> Self::in_reach(#[trigger] &self.numbers[k]),
        ensures
            found.len() == self.parts(self.numbers.len() as int).len(),
            forall|k: int|
                0 <= k < found.len() ==> *(#[trigger] found@[k]) == self.numbers[self.parts(
                    self.numbers.len() as int,
                )[k]],
    {
        let mut v: Vec<&Num> = Vec::new();
        let mut i: usize = 0;
        while i < self.numbers.len()
            invariant
                i <= self.numbers.len(),
                self.wf(),
                self.numbers.len() > 0 ==> self.rows() > 0,
                forall|k: int|
                    0 <= k < self.numbers.len() ==> Self::in_reach(#[trigger] &self.numbers[k]),
                v.len() == self.parts(i as int).len(),
                forall|k: int|
                    0 <= k < v.len() ==> *(#[trigger] v@[k]) == self.numbers[self.parts(
                        i as int,
                    )[k]],
            decreases self.numbers.len() - i,
        {
            if self.adjacent_to_symbol(&self.numbers[i]) {
                v.push(&self.numbers[i]);
            }
            i += 1;
        }
        v
    }
}

/// The number of bytes that the text `line` takes, as a `usize` holds it.
pub open spec fn byte_len(line: Seq<char>) -> int {
    (vstd::utf8::encode_utf8(line).len() as usize) as int
}

/// The plan that the first `upto` of the lines `lines` give, read row by
/// row; `None` where a line cannot be read or its row does not fit.
///
/// An empty line gives no row. In any other line each run of digits is a
/// number, and each character that is neither a digit nor a full stop is a
/// symbol; the place of the line among all lines is the row of its tokens.
pub open spec fn plan_read(lines: Seq<Seq<char>>, upto: int) -> Option<Plan>
    decreases upto,
{
    if upto <= 0 {
        Some(
            Plan {
                gears: Seq::empty(),
                numbers: Seq::empty(),
                number_rows: Seq::empty(),
                symbol_rows: Seq::empty(),
            },
        )
    } else {
        let line = lines[upto - 1];
        let y = (upto - 1) as usize;
        match plan_read(lines, upto - 1) {
            None => None,
            Some(plan) => if byte_len(line) == 0 {
                Some(plan)
            } else {
                match (tokens_of::<Num>("\\d+"@, y, line), tokens_of::<Sym>("[^\\.\\d]"@, y, line)) {
                    (Some(nums), Some(syms)) => if row_fits(plan, byte_len(line), nums, syms) {
                        Some(with_row(plan, byte_len(line), nums, syms))
                    } else {
                        None
                    },
                    _ => None,
                }
            },
        }
    }
}

/// What each of the lines holds.
pub open spec fn texts(lines: Seq<String>) -> Seq<Seq<char>> {
    Seq::new(lines.len(), |i: int| lines[i]@)
}

impl Schematic {
    /// The sum of the first `upto` numbers that stand next to a symbol;
    /// `None` where an `i32` cannot hold it on the way.
    pub open spec fn part_sum(&self, upto: int) -> Option<i32>
        decreases upto,
    {
        if upto <= 0 {
            Some(0i32)
        } else {
            match self.part_sum(upto - 1) {
                Some(sum) => if self.is_part(upto - 1) {
                    sum.checked_add(self.numbers[upto - 1].tok)
                } else {
                    Some(sum)
                },
                None => None,
            }
        }
    }

    /// The places of the numbers around the gear at `place`, each once.
    pub open spec fn around_gear(&self, place: int) -> Seq<usize> {
        self.numbers_on(
            self.covered(self.gears[place].x0, self.gears[place].x1, self.gears[place].y).cells(),
        )
    }

    /// The sum, over the first `upto` gears with exactly two numbers around
    /// them, of the product of the two; `None` where an `i32` cannot hold a
    /// product or the sum on the way.
    pub open spec fn gear_sum(&self, upto: int) -> Option<i32>
        decreases upto,
    {
        if upto <= 0 {
            Some(0i32)
        } else {
            match self.gear_sum(upto - 1) {
                Some(sum) => if self.around_gear(upto - 1).len() == 2 {
                    match self.numbers[self.around_gear(upto - 1)[0] as int].tok.checked_mul(
                        self.numbers[self.around_gear(upto - 1)[1] as int].tok,
                    ) {
                        Some(ratio) => sum.checked_add(ratio),
                        None => None,
                    }
                } else {
                    Some(sum)
                },
                None => None,
            }
        }
    }

    /// Whether each token of the schematic can be surrounded without leaving
    /// the range of `usize`, and the grid has a row where there is a token.
    pub open spec fn tokens_in_reach(&self) -> bool {
        &&& self.numbers.len() > 0 || self.gears.len() > 0 ==> self.rows() > 0
        &&& forall|k: int| 0 <= k < self.numbers.len() ==> Self::in_reach(#[trigger] &self.numbers[k])
        &&& forall|k: int| 0 <= k < self.gears.len() ==> Self::in_reach(#[trigger] &self.gears[k])
    }

    /// Whether the schematic is well formed and each of its tokens can be
    /// surrounded: what the sums and the searches of a schematic ask for.
    #[verifier::loop_isolation(false)]
    pub fn is_well_formed(&self) -> (sound: bool)
        ensures
            sound == (self.wf() && self.tokens_in_reach()),
    {
        let rows: usize = self.symbol_layer.m.len();
        if self.number_layer.m.len() != rows {
            return false;
        }
        if rows == 0 {
            return self.numbers.len() == 0 && self.gears.len() == 0;
        }
        let columns: usize = self.symbol_layer.m[0].len();
        let mut y: usize = 0;
        while y < rows
            invariant
                y <= rows,
                forall|r: int| 0 <= r < y ==> (#[trigger] self.symbol_layer.m[r]).len() == columns,
                forall|r: int| 0 <= r < y ==> (#[trigger] self.number_layer.m[r]).len() == columns,
                forall|r: int, c: int|
                    0 <= r < y && 0 <= c < columns ==> match #[trigger] self.number_at(r, c) {
                        Some(place) => place < self.numbers.len(),
                        None => true,
                    },
            decreases rows - y,
        {
            if self.symbol_layer.m[y].len() != columns || self.number_layer.m[y].len() != columns {
                return false;
            }
            let mut x: usize = 0;
            while x < columns
                invariant
                    x <= columns,
                    forall|c: int|
                        0 <= c < x ==> match #[trigger] self.number_at(y as int, c) {
                            Some(place) => place < self.numbers.len(),
                            None => true,
                        },
                decreases columns - x,
            {
                match self.number_layer.m[y][x] {
                    Some(place) => {
                        if place >= self.numbers.len() {
                            proof {
                                assert(self.on_grid(y as int, x as int));
                                assert(self.number_at(y as int, x as int) == Some(place));
                            }
                            return false;
                        }
                    },
                    None => {},
                }
                x += 1;
            }
            y += 1;
        }
        let mut k: usize = 0;
        while k < self.numbers.len()
            invariant
                k <= self.numbers.len(),
                forall|c: int| 0 <= c < k ==> Self::in_reach(#[trigger] &self.numbers[c]),
            decreases self.numbers.len() - k,
        {
            if !(self.numbers[k].x1 < usize::MAX && self.numbers[k].y < usize::MAX - 1) {
                return false;
            }
            k += 1;
        }
        let mut k: usize = 0;
        while k < self.gears.len()
            invariant
                k <= self.gears.len(),
                forall|c: int| 0 <= c < k ==> Self::in_reach(#[trigger] &self.gears[c]),
            decreases self.gears.len() - k,
        {
            if !(self.gears[k].x1 < usize::MAX && self.gears[k].y < usize::MAX - 1) {
                return false;
            }
            k += 1;
        }
        true
    }

    /// The sum of the numbers that stand next to a symbol, or `None` where
    /// an `i32` cannot hold it on the way.
    #[verifier::loop_isolation(false)]
    pub fn part_number_sum(&self) -> (sum: Option<i32>)
        requires
            self.wf(),
            self.tokens_in_reach(),
        ensures
            sum == self.part_sum(self.numbers.len() as int),
    {
        let mut sum: i32 = 0;
        let mut i: usize = 0;
        while i < self.numbers.len()
            invariant
                i <= self.numbers.len(),
                self.part_sum(i as int) == Some(sum),
            decreases self.numbers.len() - i,
        {
            if self.adjacent_to_symbol(&self.numbers[i]) {
                match sum.checked_add(self.numbers[i].tok) {
                    Some(more) => {
                        sum = more;
                    },
                    None => {
                        proof {
                            self.lemma_part_sum_fails(i + 1, self.numbers.len() as int);
                        }
                        return None;
                    },
                }
            }
            i += 1;
        }
        Some(sum)
    }

    /// The sum of the gear ratios: for each star with exactly two numbers
    /// around it, the product of the two. The result is `None` where an `i32`
    /// cannot hold a product or the sum on the way.
    #[verifier::loop_isolation(false)]
    pub fn gear_ratio_sum(&self) -> (sum: Option<i32>)
        requires
            self.wf(),
            self.tokens_in_reach(),
        ensures
            sum == self.gear_sum(self.gears.len() as int),
    {
        let mut sum: i32 = 0;
        let mut i: usize = 0;
        while i < self.gears.len()
            invariant
                i <= self.gears.len(),
                self.gear_sum(i as int) == Some(sum),
            decreases self.gears.len() - i,
        {
            let around = self.get_adjacent_numbers(&self.gears[i]);
            if around.len() == 2 {
                let ratio = around[0].tok.checked_mul(around[1].tok);
                let more = match ratio {
                    Some(r) => sum.checked_add(r),
                    None => None,
                };
                match more {
                    Some(m) => {
                        sum = m;
                    },
                    None => {
                        proof {
                            self.lemma_gear_sum_fails(i + 1, self.gears.len() as int);
                        }
                        return None;
                    },
                }
            }
            i += 1;
        }
        Some(sum)
    }

    /// A sum that has failed stays failed.
    pub proof fn lemma_part_sum_fails(&self, k: int, upto: int)
        requires
            k <= upto,
            self.part_sum(k) is None,
        ensures
            self.part_sum(upto) is None,
        decreases upto - k,
    {
        if k < upto {
            self.lemma_part_sum_fails(k, upto - 1);
        }
    }

    /// A sum that has failed stays failed.
    pub proof fn lemma_gear_sum_fails(&self, k: int, upto: int)
        requires
            k <= upto,
            self.gear_sum(k) is None,
        ensures
            self.gear_sum(upto) is None,
        decreases upto - k,
    {
        if k < upto {
            self.lemma_gear_sum_fails(k, upto - 1);
        }
    }

    /// The schematic that the lines `lines` draw, or `None` where a line
    /// cannot be read or its row does not fit under the rows before it.
    #[verifier::loop_isolation(false)]
    pub fn from_lines(lines: &Vec<String>) -> (drawn: Option<Schematic>)
        ensures
            match drawn {
                Some(schematic) => plan_read(texts(lines@), lines.len() as int) == Some(
                    schematic@,
                ) && schematic.wf(),
                None => plan_read(texts(lines@), lines.len() as int) is None,
            },
    {
        let mut schematic = Schematic::empty();
        let ghost all = texts(lines@);
        let mut j: usize = 0;
        proof {
            assert(schematic@.number_rows =~= Seq::<Seq<Option<usize>>>::empty());
            assert(schematic@.symbol_rows =~= Seq::<Seq<bool>>::empty());
            assert(schematic@.gears =~= Seq::<Sym>::empty());
            assert(schematic@.numbers =~= Seq::<Num>::empty());
        }
        while j < lines.len()
            invariant
                j <= lines.len(),
                schematic.wf(),
                plan_read(all, j as int) == Some(schematic@),
            decreases lines.len() - j,
        {
            let line: &str = lines[j].as_str();
            let width: usize = line.len();
            let ghost plan = schematic@;
            proof {
                assert(all[j as int] == line@);
                assert(byte_len(line@) == width);
                assert(plan_read(all, j + 1) == (if byte_len(line@) == 0 {
                    Some(plan)
                } else {
                    match (
                        tokens_of::<Num>("\\d+"@, j, line@),
                        tokens_of::<Sym>("[^\\.\\d]"@, j, line@),
                    ) {
                        (Some(nums), Some(syms)) => if row_fits(plan, byte_len(line@), nums, syms) {
                            Some(with_row(plan, byte_len(line@), nums, syms))
                        } else {
                            None
                        },
                        _ => None,
                    }
                }));
            }
            if width != 0 {
                let nums: Option<Vec<Num>> = get_tokens("\\d+", j, line);
                let syms: Option<Vec<Sym>> = get_tokens("[^\\.\\d]", j, line);
                let added = match (nums, syms) {
                    (Some(nums), Some(syms)) => schematic.add_row(width, nums, syms),
                    _ => false,
                };
                if !added {
                    proof {
                        lemma_plan_read_fails(all, j + 1, lines.len() as int);
                    }
                    return None;
                }
            }
            j += 1;
        }
        Some(schematic)
    }
}

/// A reading that has failed stays failed.
pub proof fn lemma_plan_read_fails(lines: Seq<Seq<char>>, k: int, upto: int)
    requires
        k <= upto,
        plan_read(lines, k) is None,
    ensures
        plan_read(lines, upto) is None,
    decreases upto - k,
{
    if k < upto {
        lemma_plan_read_fails(lines, k, upto - 1);
    }
}

} // verus!
