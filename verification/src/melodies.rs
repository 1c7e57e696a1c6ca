use vstd::prelude::*;
use crate::error::AudionError;
use crate::sequences::is_runtime_error;
use crate::sequences::strings_view;
use crate::text::chars_of;
use crate::text::string_of;
use crate::text::push_decimal;
use crate::text::push_signed;
use crate::text::decimal;
use crate::text::signed_decimal;
use vstd::arithmetic::power::pow;

verus! {

// ---------------------------------------------------------------------------
// String to note indices
// ---------------------------------------------------------------------------

/// The note index of a character in a palette of `n` notes: digits count from 0,
/// lower-case letters from 10, upper-case letters from 36, all modulo `n`; anything else is 0.
pub open spec fn note_index(c: char, n: int) -> int {
    if '0' <= c && c <= '9' {
        (c as int - '0' as int) % n
    } else if 'a' <= c && c <= 'z' {
        (c as int - 'a' as int + 10) % n
    } else if 'A' <= c && c <= 'Z' {
        (c as int - 'A' as int + 36) % n
    } else {
        0
    }
}

/// Maps each character of `input` to a note index in `0..num_notes`.
/// `array_mel_string_to_indices("a1Z", 12)` gives `[10, 1, 1]`.
pub fn array_mel_string_to_indices(input: &str, num_notes: i32) -> (r: Result<Vec<i32>, AudionError>)
    ensures
        num_notes < 1 ==> is_runtime_error(r, "array_mel_string_to_indices() num_notes must be >= 1"@),
        num_notes >= 1 ==> (r matches Ok(v) && v@.len() == input@.len()
            && (forall|i: int| 0 <= i < v@.len() ==> v@[i] == note_index(input@[i], num_notes as int))
            && (forall|i: int| 0 <= i < v@.len() ==> 0 <= #[trigger] v@[i] < num_notes)),
{
    if num_notes < 1 {
        return Err(AudionError::RuntimeError { msg: String::from_str("array_mel_string_to_indices() num_notes must be >= 1") });
    }
    let cs = chars_of(input);
    let mut result: Vec<i32> = Vec::new();
    let mut i: usize = 0;
    while i < cs.len()
        invariant
            cs@ == input@,
            num_notes >= 1,
            i <= cs@.len(),
            result@.len() == i,
            forall|j: int| 0 <= j < i ==> result@[j] == note_index(input@[j], num_notes as int),
            forall|j: int| 0 <= j < i ==> 0 <= #[trigger] result@[j] < num_notes,
        decreases cs.len() - i,
    {
        let ch = cs[i];
        let code = ch as u32;
        let idx: i32 = if ch >= '0' && ch <= '9' {
            ((code - 48) as i32) % num_notes
        } else if ch >= 'a' && ch <= 'z' {
            ((code - 97 + 10) as i32) % num_notes
        } else if ch >= 'A' && ch <= 'Z' {
            ((code - 65 + 36) as i32) % num_notes
        } else {
            0
        };
        result.push(idx);
        i += 1;
    }
    Ok(result)
}

// ---------------------------------------------------------------------------
// Reversal
// ---------------------------------------------------------------------------

/// The melody in reverse order.
pub fn array_mel_reverse<T: Copy>(melody: &[T]) -> (r: Vec<T>)
    ensures r@ == melody@.reverse(),
{
    let mut result: Vec<T> = Vec::new();
    let mut i: usize = melody.len();
    while i > 0
        invariant
            i <= melody@.len(),
            result@ == melody@.subrange(i as int, melody@.len() as int).reverse(),
        decreases i,
    {
        i -= 1;
        result.push(melody[i]);
        assert(result@ =~= melody@.subrange(i as int, melody@.len() as int).reverse());
    }
    assert(melody@.subrange(0, melody@.len() as int) =~= melody@);
    result
}

// ---------------------------------------------------------------------------
// Lattice walk to melody
// ---------------------------------------------------------------------------

/// One step of a path on a toroidal grid of `nc` columns and `nr` rows: `u`/`d` move the row
/// up/down, `l`/`r` the column, `v` both up, `e` both down; anything else stays.
pub open spec fn grid_step(c: char, x: int, y: int, nc: int, nr: int) -> (int, int) {
    let right = if x + 1 >= nc { 0 } else { x + 1 };
    let left = if x - 1 < 0 { nc - 1 } else { x - 1 };
    let up = if y + 1 >= nr { 0 } else { y + 1 };
    let down = if y - 1 < 0 { nr - 1 } else { y - 1 };
    if c == 'u' { (x, up) }
    else if c == 'd' { (x, down) }
    else if c == 'l' { (left, y) }
    else if c == 'r' { (right, y) }
    else if c == 'v' { (right, up) }
    else if c == 'e' { (left, down) }
    else { (x, y) }
}

/// The grid position after the first `k` characters of `path`, starting at `(x, y)`.
pub open spec fn grid_position(path: Seq<char>, k: nat, x: int, y: int, nc: int, nr: int) -> (int, int)
    decreases k,
{
    if k == 0 {
        (x, y)
    } else {
        let p = grid_position(path, (k - 1) as nat, x, y, nc, nr);
        grid_step(path[k - 1], p.0, p.1, nc, nr)
    }
}

proof fn lemma_grid_position_in_range(path: Seq<char>, k: nat, x: int, y: int, nc: int, nr: int)
    requires
        0 <= x < nc,
        0 <= y < nr,
    ensures
        0 <= grid_position(path, k, x, y, nc, nr).0 < nc,
        0 <= grid_position(path, k, x, y, nc, nr).1 < nr,
    decreases k,
{
    if k > 0 {
        lemma_grid_position_in_range(path, (k - 1) as nat, x, y, nc, nr);
    }
}

/// The start of the grid is a valid cell: the grid and its first row are non-empty
/// and `(x, y)` lies within the first row's width and the number of rows.
pub open spec fn grid_start_valid<T>(grid: Seq<Vec<T>>, x: int, y: int) -> bool {
    grid.len() > 0 && grid[0].len() > 0 && 0 <= x < grid[0].len() && 0 <= y < grid.len()
}

/// Every cell that the path visits exists in its row.
pub open spec fn path_cells_present<T>(grid: Seq<Vec<T>>, path: Seq<char>, x: int, y: int) -> bool {
    forall|k: nat| k <= path.len() ==> {
        let p = #[trigger] grid_position(path, k, x, y, grid[0].len() as int, grid.len() as int);
        p.0 < grid[p.1]@.len()
    }
}

/// The notes met along the path, the start included.
pub open spec fn path_notes<T>(grid: Seq<Vec<T>>, path: Seq<char>, x: int, y: int) -> Seq<T> {
    Seq::new(path.len() + 1, |k: int| {
        let p = grid_position(path, k as nat, x, y, grid[0].len() as int, grid.len() as int);
        grid[p.1]@[p.0]
    })
}

pub open spec fn start_position_msg(fn_name: Seq<char>, x: int, y: int) -> Seq<char> {
    fn_name + "() invalid start position ("@ + signed_decimal(x) + ", "@ + signed_decimal(y) + ")"@
}

/// Converts a lattice path into the notes of `grid` (indexed `grid[row][column]`) met along it,
/// starting at column `x`, row `y`; the grid wraps around at its edges. The width is that of the
/// first row.
pub fn array_mel_lattice_to_melody<T: Copy>(grid: &Vec<Vec<T>>, path: &str, x: i32, y: i32) -> (r: Result<Vec<T>, AudionError>)
    requires
        grid@.len() <= i32::MAX,
        grid@.len() > 0 ==> grid@[0]@.len() <= i32::MAX,
        grid_start_valid(grid@, x as int, y as int) ==> path_cells_present(grid@, path@, x as int, y as int),
    ensures
        grid@.len() == 0 ==> is_runtime_error(r, "array_mel_lattice_to_melody() note_grid cannot be empty"@),
        grid@.len() > 0 && grid@[0]@.len() == 0
            ==> is_runtime_error(r, "array_mel_lattice_to_melody() note_grid rows cannot be empty"@),
        grid@.len() > 0 && grid@[0]@.len() > 0 && !grid_start_valid(grid@, x as int, y as int)
            ==> is_runtime_error(r, start_position_msg("array_mel_lattice_to_melody"@, x as int, y as int)),
        grid_start_valid(grid@, x as int, y as int)
            ==> (r matches Ok(v) && v@ == path_notes(grid@, path@, x as int, y as int)),
{
    if grid.len() == 0 {
        return Err(AudionError::RuntimeError { msg: String::from_str("array_mel_lattice_to_melody() note_grid cannot be empty") });
    }
    if grid[0].len() == 0 {
        return Err(AudionError::RuntimeError { msg: String::from_str("array_mel_lattice_to_melody() note_grid rows cannot be empty") });
    }
    let nr: i32 = grid.len() as i32;
    let nc: i32 = grid[0].len() as i32;
    if x < 0 || x >= nc || y < 0 || y >= nr {
        let mut msg = String::from_str("array_mel_lattice_to_melody");
        msg.append("() invalid start position (");
        push_signed(&mut msg, x as i64);
        msg.append(", ");
        push_signed(&mut msg, y as i64);
        msg.append(")");
        return Err(AudionError::RuntimeError { msg });
    }
    let cs = chars_of(path);
    let ghost g = grid@;
    let mut cx: i32 = x;
    let mut cy: i32 = y;
    let mut result: Vec<T> = Vec::new();
    proof {
        assert(grid_position(path@, 0, x as int, y as int, nc as int, nr as int) == (x as int, y as int));
    }
    result.push(grid[y as usize][x as usize]);
    let mut k: usize = 0;
    while k < cs.len()
        invariant
            g == grid@,
            cs@ == path@,
            nr as int == g.len(),
            nc as int == g[0]@.len(),
            0 <= x < nc,
            0 <= y < nr,
            path_cells_present(g, path@, x as int, y as int),
            k <= cs@.len(),
            (cx as int, cy as int) == grid_position(path@, k as nat, x as int, y as int, nc as int, nr as int),
            0 <= cx < nc,
            0 <= cy < nr,
            result@ == path_notes(g, path@, x as int, y as int).take(k + 1),
        decreases cs.len() - k,
    {
        let ch = cs[k];
        if ch == 'u' {
            cy = if cy + 1 >= nr { 0 } else { cy + 1 };
        } else if ch == 'd' {
            cy = if cy - 1 < 0 { nr - 1 } else { cy - 1 };
        } else if ch == 'l' {
            cx = if cx - 1 < 0 { nc - 1 } else { cx - 1 };
        } else if ch == 'r' {
            cx = if cx + 1 >= nc { 0 } else { cx + 1 };
        } else if ch == 'v' {
            cx = if cx + 1 >= nc { 0 } else { cx + 1 };
            cy = if cy + 1 >= nr { 0 } else { cy + 1 };
        } else if ch == 'e' {
            cx = if cx - 1 < 0 { nc - 1 } else { cx - 1 };
            cy = if cy - 1 < 0 { nr - 1 } else { cy - 1 };
        }
        k += 1;
        proof {
            let p = grid_position(path@, k as nat, x as int, y as int, nc as int, nr as int);
            assert(p == (cx as int, cy as int));
            assert(p.0 < g[p.1]@.len());
        }
        result.push(grid[cy as usize][cx as usize]);
        assert(result@ =~= path_notes(g, path@, x as int, y as int).take(k + 1));
    }
    assert(result@ =~= path_notes(g, path@, x as int, y as int));
    Ok(result)
}

// ---------------------------------------------------------------------------
// Subset sampling (selection sampling, Vitter's algorithm S)
// ---------------------------------------------------------------------------

/// Whether `v` can be obtained from `s` by deleting elements.
pub open spec fn is_subsequence<T>(v: Seq<T>, s: Seq<T>) -> bool
    decreases s.len(),
{
    if v.len() == 0 {
        true
    } else if s.len() == 0 {
        false
    } else {
        (v.last() == s.last() && is_subsequence(v.drop_last(), s.drop_last()))
            || is_subsequence(v, s.drop_last())
    }
}

proof fn lemma_subsequence_extend<T>(v: Seq<T>, s: Seq<T>, t: Seq<T>)
    requires is_subsequence(v, s),
    ensures is_subsequence(v, s + t),
    decreases t.len(),
{
    if t.len() > 0 {
        lemma_subsequence_extend(v, s, t.drop_last());
        assert((s + t).drop_last() =~= s + t.drop_last());
    }
}

pub open spec fn subset_size_msg(m: nat, n: nat) -> Seq<char> {
    "array_mel_subset_sample() subset_size ("@ + decimal(m) + ") cannot be larger than array size ("@
        + decimal(n) + ")"@
}

/// A random `m`-element subset of `input`, in input order. For each element, `below(mp, np)`
/// answers whether a fresh uniform draw falls below `mp / np`, where `mp` elements remain to be
/// chosen among the `np` that are left; the element is chosen when it does. When every element
/// left must be chosen (`mp == np`), it is chosen without a draw.
/// Whatever the draws, the result keeps input order and has exactly `m` elements.
pub fn array_mel_subset_sample<T: Copy, F: Fn(usize, usize) -> bool>(input: &[T], m: usize, below: &F) -> (r: Result<Vec<T>, AudionError>)
    requires
        forall|a: usize, b: usize| below.requires((a, b)),
    ensures
        m > input@.len() ==> is_runtime_error(r, subset_size_msg(m as nat, input@.len())),
        m <= input@.len() ==> (r matches Ok(v) && v@.len() == m && is_subsequence(v@, input@)),
{
    let n = input.len();
    if m > n {
        let mut msg = String::from_str("array_mel_subset_sample() subset_size (");
        push_decimal(&mut msg, m as u64);
        msg.append(") cannot be larger than array size (");
        push_decimal(&mut msg, n as u64);
        msg.append(")");
        return Err(AudionError::RuntimeError { msg });
    }
    let mut result: Vec<T> = Vec::new();
    if m == 0 {
        return Ok(result);
    }
    let mut mp: usize = m;
    let mut np: usize = n;
    let mut i: usize = 0;
    while i < n
        invariant_except_break
            0 < mp,
        invariant
            n == input@.len(),
            i <= n,
            np == n - i,
            mp <= m,
            result@.len() + mp == m,
            is_subsequence(result@, input@.take(i as int)),
            mp <= np,
            forall|a: usize, b: usize| below.requires((a, b)),
        ensures
            mp == 0 || i == n,
            mp <= m,
            result@.len() + mp == m,
            mp <= np,
            np == n - i,
            i <= n,
            is_subsequence(result@, input@.take(i as int)),
        decreases n - i,
    {
        let chosen = if mp >= np { true } else { below(mp, np) };
        let ghost before = result@;
        proof {
            assert(input@.take(i + 1).drop_last() =~= input@.take(i as int));
        }
        if chosen {
            result.push(input[i]);
            assert(result@.drop_last() =~= before);
            mp -= 1;
            if mp == 0 {
                i += 1;
                np -= 1;
                break;
            }
        }
        np -= 1;
        i += 1;
    }
    proof {
        assert(input@.take(i as int) + input@.skip(i as int) =~= input@);
        lemma_subsequence_extend(result@, input@.take(i as int), input@.skip(i as int));
    }
    Ok(result)
}


// ---------------------------------------------------------------------------
// Lattice walks
// ---------------------------------------------------------------------------

/// The four kinds of lattice walk: on the square lattice; on the triangular lattice (the square
/// moves plus the diagonals `v` and `e`); on the square lattice without undoing the previous move;
/// and on the square lattice with stops `s` of bounded length.
pub enum WalkKind {
    Square,
    Triangular,
    NoRetrace,
    WithStops,
}

/// Each path of `ws` with the move `c` in front.
pub open spec fn prefixed(c: char, ws: Seq<Seq<char>>) -> Seq<Seq<char>> {
    ws.map_values(|w: Seq<char>| seq![c] + w)
}

/// Each path of `ws` appended to `p`.
pub open spec fn with_prefix(p: Seq<char>, ws: Seq<Seq<char>>) -> Seq<Seq<char>> {
    ws.map_values(|w: Seq<char>| p + w)
}

/// Whether a move is barred because it would undo the previous one.
pub open spec fn undoes(kind: WalkKind, prev: Option<char>, back: char) -> bool {
    kind is NoRetrace && prev == Some(back)
}

/// All walks of `rem` moves from `(i, j)` that end at `(a, b)`, on the lattice with columns
/// `0..=nc` and rows `0..=nr`, in the order the moves are tried: stop, right, left, up, down,
/// then the diagonals. `prev` is the previous move and `nstop` the length of the current stop.
pub open spec fn walks(kind: WalkKind, nc: int, nr: int, a: int, b: int, maxstop: int,
    i: int, j: int, prev: Option<char>, nstop: int, rem: nat) -> Seq<Seq<char>>
    decreases rem,
{
    if rem == 0 {
        if i == a && j == b { seq![Seq::empty()] } else { Seq::empty() }
    } else {
        let r1 = (rem - 1) as nat;
        let stop = if kind is WithStops && nstop < maxstop {
            prefixed('s', walks(kind, nc, nr, a, b, maxstop, i, j, Some('s'), nstop + 1, r1))
        } else { Seq::empty() };
        let right = if i < nc && !undoes(kind, prev, 'l') {
            prefixed('r', walks(kind, nc, nr, a, b, maxstop, i + 1, j, Some('r'), 0, r1))
        } else { Seq::empty() };
        let left = if i > 0 && !undoes(kind, prev, 'r') {
            prefixed('l', walks(kind, nc, nr, a, b, maxstop, i - 1, j, Some('l'), 0, r1))
        } else { Seq::empty() };
        let up = if j < nr && !undoes(kind, prev, 'd') {
            prefixed('u', walks(kind, nc, nr, a, b, maxstop, i, j + 1, Some('u'), 0, r1))
        } else { Seq::empty() };
        let down = if j > 0 && !undoes(kind, prev, 'u') {
            prefixed('d', walks(kind, nc, nr, a, b, maxstop, i, j - 1, Some('d'), 0, r1))
        } else { Seq::empty() };
        let diag_up = if kind is Triangular && j < nr && i < nc {
            prefixed('v', walks(kind, nc, nr, a, b, maxstop, i + 1, j + 1, Some('v'), 0, r1))
        } else { Seq::empty() };
        let diag_down = if kind is Triangular && j > 0 && i > 0 {
            prefixed('e', walks(kind, nc, nr, a, b, maxstop, i - 1, j - 1, Some('e'), 0, r1))
        } else { Seq::empty() };
        stop + right + left + up + down + diag_up + diag_down
    }
}

proof fn lemma_prefixed_filter(c: char, xs: Seq<Seq<char>>, p: spec_fn(Seq<char>) -> bool, q: spec_fn(Seq<char>) -> bool)
    requires
        forall|w: Seq<char>| #[trigger] p(seq![c] + w) == q(w),
    ensures
        prefixed(c, xs).filter(p) == prefixed(c, xs.filter(q)),
    decreases xs.len(),
{
    reveal(Seq::filter);
    if xs.len() == 0 {
        assert(prefixed(c, xs) =~= Seq::<Seq<char>>::empty());
        assert(prefixed(c, Seq::<Seq<char>>::empty()) =~= Seq::<Seq<char>>::empty());
    } else {
        let ys = xs.drop_last();
        let y = xs.last();
        lemma_prefixed_filter(c, ys, p, q);
        assert(prefixed(c, xs).drop_last() =~= prefixed(c, ys));
        assert(prefixed(c, xs).last() == seq![c] + y);
        assert(p(seq![c] + y) == q(y));
        let f = ys.filter(q);
        if q(y) {
            assert(xs.filter(q) == f.push(y));
            assert(prefixed(c, f.push(y)) =~= prefixed(c, f).push(seq![c] + y));
        } else {
            assert(xs.filter(q) == f);
        }
    }
}

proof fn lemma_prefixed_filter_none(c: char, xs: Seq<Seq<char>>, p: spec_fn(Seq<char>) -> bool)
    requires
        forall|w: Seq<char>| !#[trigger] p(seq![c] + w),
    ensures
        prefixed(c, xs).filter(p) == Seq::<Seq<char>>::empty(),
    decreases xs.len(),
{
    reveal(Seq::filter);
    if xs.len() == 0 {
        assert(prefixed(c, xs) =~= Seq::<Seq<char>>::empty());
    } else {
        lemma_prefixed_filter_none(c, xs.drop_last(), p);
        assert(prefixed(c, xs).drop_last() =~= prefixed(c, xs.drop_last()));
        assert(prefixed(c, xs).last() == seq![c] + xs.last());
        assert(!p(seq![c] + xs.last()));
    }
}

proof fn lemma_filter_seven(s: Seq<Seq<char>>, r: Seq<Seq<char>>, l: Seq<Seq<char>>, u: Seq<Seq<char>>,
    d: Seq<Seq<char>>, v: Seq<Seq<char>>, e: Seq<Seq<char>>, p: spec_fn(Seq<char>) -> bool)
    ensures
        (s + r + l + u + d + v + e).filter(p)
            == s.filter(p) + r.filter(p) + l.filter(p) + u.filter(p) + d.filter(p) + v.filter(p) + e.filter(p),
{
    Seq::filter_distributes_over_add(s + r + l + u + d + v, e, p);
    Seq::filter_distributes_over_add(s + r + l + u + d, v, p);
    Seq::filter_distributes_over_add(s + r + l + u, d, p);
    Seq::filter_distributes_over_add(s + r + l, u, p);
    Seq::filter_distributes_over_add(s + r, l, p);
    Seq::filter_distributes_over_add(s, r, p);
}

proof fn lemma_filter_empty(p: spec_fn(Seq<char>) -> bool)
    ensures Seq::<Seq<char>>::empty().filter(p) == Seq::<Seq<char>>::empty(),
{
    reveal(Seq::filter);
}

/// Whether a walk has no diagonal move (`v` or `e`).
pub open spec fn no_diagonal() -> spec_fn(Seq<char>) -> bool {
    |w: Seq<char>| forall|k: int| 0 <= k < w.len() ==> w[k] != 'v' && w[k] != 'e'
}

proof fn lemma_no_diagonal_step(c: char)
    ensures
        forall|w: Seq<char>| #[trigger] no_diagonal()(seq![c] + w) == (c != 'v' && c != 'e' && no_diagonal()(w)),
{
    assert forall|w: Seq<char>| #[trigger] no_diagonal()(seq![c] + w) == (c != 'v' && c != 'e' && no_diagonal()(w)) by {
        let cw = seq![c] + w;
        if no_diagonal()(cw) {
            assert(cw[0] == c);
            assert forall|k: int| 0 <= k < w.len() implies w[k] != 'v' && w[k] != 'e' by {
                assert(cw[k + 1] == w[k]);
            }
        }
        if c != 'v' && c != 'e' && no_diagonal()(w) {
            assert forall|k: int| 0 <= k < cw.len() implies cw[k] != 'v' && cw[k] != 'e' by {
                if k > 0 { assert(cw[k] == w[k - 1]); }
            }
        }
    }
}

proof fn lemma_tri_filter(nc: int, nr: int, a: int, b: int, maxstop: int, i: int, j: int,
    prev: Option<char>, nstop: int, rem: nat)
    ensures
        walks(WalkKind::Triangular, nc, nr, a, b, maxstop, i, j, prev, nstop, rem).filter(no_diagonal())
            == walks(WalkKind::Square, nc, nr, a, b, maxstop, i, j, prev, nstop, rem),
    decreases rem,
{
    reveal(Seq::filter);
    let p = no_diagonal();
    lemma_filter_empty(p);
    if rem == 0 {
        if i == a && j == b {
            let e = seq![Seq::<char>::empty()];
            assert(e.drop_last() =~= Seq::<Seq<char>>::empty());
            assert(p(Seq::<char>::empty()));
            assert(e.filter(p) =~= e);
        }
    } else {
        let r1 = (rem - 1) as nat;
        let t = WalkKind::Triangular;
        let s = WalkKind::Square;
        lemma_no_diagonal_step('r');
        lemma_no_diagonal_step('l');
        lemma_no_diagonal_step('u');
        lemma_no_diagonal_step('d');
        lemma_no_diagonal_step('v');
        lemma_no_diagonal_step('e');
        lemma_tri_filter(nc, nr, a, b, maxstop, i + 1, j, Some('r'), 0, r1);
        lemma_tri_filter(nc, nr, a, b, maxstop, i - 1, j, Some('l'), 0, r1);
        lemma_tri_filter(nc, nr, a, b, maxstop, i, j + 1, Some('u'), 0, r1);
        lemma_tri_filter(nc, nr, a, b, maxstop, i, j - 1, Some('d'), 0, r1);
        lemma_prefixed_filter('r', walks(t, nc, nr, a, b, maxstop, i + 1, j, Some('r'), 0, r1), p, p);
        lemma_prefixed_filter('l', walks(t, nc, nr, a, b, maxstop, i - 1, j, Some('l'), 0, r1), p, p);
        lemma_prefixed_filter('u', walks(t, nc, nr, a, b, maxstop, i, j + 1, Some('u'), 0, r1), p, p);
        lemma_prefixed_filter('d', walks(t, nc, nr, a, b, maxstop, i, j - 1, Some('d'), 0, r1), p, p);
        lemma_prefixed_filter_none('v', walks(t, nc, nr, a, b, maxstop, i + 1, j + 1, Some('v'), 0, r1), p);
        lemma_prefixed_filter_none('e', walks(t, nc, nr, a, b, maxstop, i - 1, j - 1, Some('e'), 0, r1), p);
        let right = if i < nc { prefixed('r', walks(t, nc, nr, a, b, maxstop, i + 1, j, Some('r'), 0, r1)) } else { Seq::empty() };
        let left = if i > 0 { prefixed('l', walks(t, nc, nr, a, b, maxstop, i - 1, j, Some('l'), 0, r1)) } else { Seq::empty() };
        let up = if j < nr { prefixed('u', walks(t, nc, nr, a, b, maxstop, i, j + 1, Some('u'), 0, r1)) } else { Seq::empty() };
        let down = if j > 0 { prefixed('d', walks(t, nc, nr, a, b, maxstop, i, j - 1, Some('d'), 0, r1)) } else { Seq::empty() };
        let dv = if j < nr && i < nc { prefixed('v', walks(t, nc, nr, a, b, maxstop, i + 1, j + 1, Some('v'), 0, r1)) } else { Seq::empty() };
        let de = if j > 0 && i > 0 { prefixed('e', walks(t, nc, nr, a, b, maxstop, i - 1, j - 1, Some('e'), 0, r1)) } else { Seq::empty() };
        let empty = Seq::<Seq<char>>::empty();
        assert(walks(t, nc, nr, a, b, maxstop, i, j, prev, nstop, rem) == empty + right + left + up + down + dv + de);
        lemma_filter_seven(empty, right, left, up, down, dv, de, p);
        let sq = walks(s, nc, nr, a, b, maxstop, i, j, prev, nstop, rem);
        assert(sq =~= empty.filter(p) + right.filter(p) + left.filter(p) + up.filter(p) + down.filter(p) + dv.filter(p) + de.filter(p));
    }
}

/// The walks on the square lattice are the walks on the triangular lattice without a diagonal
/// move, in the same order.
pub proof fn law_square_walks_are_triangular_without_diagonals(nc: int, nr: int, a: int, b: int,
    x: int, y: int, n: nat)
    ensures
        walks(WalkKind::Triangular, nc, nr, a, b, 0, x, y, None, 0, n).filter(no_diagonal())
            == walks(WalkKind::Square, nc, nr, a, b, 0, x, y, None, 0, n),
{
    lemma_tri_filter(nc, nr, a, b, 0, x, y, None, 0, n);
}

/// Whether move `c` right after `prev` undoes it.
pub open spec fn undo_pair(prev: Option<char>, c: char) -> bool {
    ||| c == 'r' && prev == Some('l')
    ||| c == 'l' && prev == Some('r')
    ||| c == 'u' && prev == Some('d')
    ||| c == 'd' && prev == Some('u')
}

/// Whether no move of `w` undoes the move before it (the first move follows `prev`).
pub open spec fn no_undo_after(prev: Option<char>, w: Seq<char>) -> bool
    decreases w.len(),
{
    if w.len() == 0 {
        true
    } else {
        !undo_pair(prev, w[0]) && no_undo_after(Some(w[0]), w.drop_first())
    }
}

/// Whether no move of a walk undoes the move before it.
pub open spec fn retrace_free(prev: Option<char>) -> spec_fn(Seq<char>) -> bool {
    |w: Seq<char>| no_undo_after(prev, w)
}

proof fn lemma_retrace_step(prev: Option<char>, c: char)
    ensures
        forall|w: Seq<char>| #[trigger] retrace_free(prev)(seq![c] + w)
            == (!undo_pair(prev, c) && retrace_free(Some(c))(w)),
{
    assert forall|w: Seq<char>| #[trigger] retrace_free(prev)(seq![c] + w)
        == (!undo_pair(prev, c) && retrace_free(Some(c))(w)) by {
        let cw = seq![c] + w;
        assert(cw[0] == c);
        assert(cw.drop_first() =~= w);
    }
}

proof fn lemma_retrace_move(c: char, back: char, allowed: bool, prev: Option<char>, xs: Seq<Seq<char>>, ys: Seq<Seq<char>>)
    requires
        forall|pp: Option<char>| #[trigger] undo_pair(pp, c) == (pp == Some(back)),
        xs.filter(retrace_free(Some(c))) == ys,
    ensures
        (if allowed { prefixed(c, xs) } else { Seq::empty() }).filter(retrace_free(prev))
            == (if allowed && !undoes(WalkKind::NoRetrace, prev, back) { prefixed(c, ys) } else { Seq::empty() }),
{
    lemma_filter_empty(retrace_free(prev));
    lemma_retrace_step(prev, c);
    if allowed {
        if undo_pair(prev, c) {
            lemma_prefixed_filter_none(c, xs, retrace_free(prev));
        } else {
            lemma_prefixed_filter(c, xs, retrace_free(prev), retrace_free(Some(c)));
        }
    }
}

proof fn lemma_no_retrace_filter(nc: int, nr: int, a: int, b: int, maxstop: int, i: int, j: int,
    prev: Option<char>, nstop: int, rem: nat)
    ensures
        walks(WalkKind::Square, nc, nr, a, b, maxstop, i, j, prev, nstop, rem).filter(retrace_free(prev))
            == walks(WalkKind::NoRetrace, nc, nr, a, b, maxstop, i, j, prev, nstop, rem),
    decreases rem,
{
    reveal(Seq::filter);
    let p = retrace_free(prev);
    lemma_filter_empty(p);
    if rem == 0 {
        if i == a && j == b {
            let e = seq![Seq::<char>::empty()];
            assert(e.drop_last() =~= Seq::<Seq<char>>::empty());
            assert(p(Seq::<char>::empty()));
            assert(e.filter(p) =~= e);
        }
    } else {
        let r1 = (rem - 1) as nat;
        let s = WalkKind::Square;
        lemma_no_retrace_filter(nc, nr, a, b, maxstop, i + 1, j, Some('r'), 0, r1);
        lemma_no_retrace_filter(nc, nr, a, b, maxstop, i - 1, j, Some('l'), 0, r1);
        lemma_no_retrace_filter(nc, nr, a, b, maxstop, i, j + 1, Some('u'), 0, r1);
        lemma_no_retrace_filter(nc, nr, a, b, maxstop, i, j - 1, Some('d'), 0, r1);
        let wr = walks(s, nc, nr, a, b, maxstop, i + 1, j, Some('r'), 0, r1);
        let wl = walks(s, nc, nr, a, b, maxstop, i - 1, j, Some('l'), 0, r1);
        let wu = walks(s, nc, nr, a, b, maxstop, i, j + 1, Some('u'), 0, r1);
        let wd = walks(s, nc, nr, a, b, maxstop, i, j - 1, Some('d'), 0, r1);
        lemma_retrace_move('r', 'l', i < nc, prev, wr, walks(WalkKind::NoRetrace, nc, nr, a, b, maxstop, i + 1, j, Some('r'), 0, r1));
        lemma_retrace_move('l', 'r', i > 0, prev, wl, walks(WalkKind::NoRetrace, nc, nr, a, b, maxstop, i - 1, j, Some('l'), 0, r1));
        lemma_retrace_move('u', 'd', j < nr, prev, wu, walks(WalkKind::NoRetrace, nc, nr, a, b, maxstop, i, j + 1, Some('u'), 0, r1));
        lemma_retrace_move('d', 'u', j > 0, prev, wd, walks(WalkKind::NoRetrace, nc, nr, a, b, maxstop, i, j - 1, Some('d'), 0, r1));
        let right = if i < nc { prefixed('r', wr) } else { Seq::empty() };
        let left = if i > 0 { prefixed('l', wl) } else { Seq::empty() };
        let up = if j < nr { prefixed('u', wu) } else { Seq::empty() };
        let down = if j > 0 { prefixed('d', wd) } else { Seq::empty() };
        let empty = Seq::<Seq<char>>::empty();
        assert(walks(s, nc, nr, a, b, maxstop, i, j, prev, nstop, rem) == empty + right + left + up + down + empty + empty);
        lemma_filter_seven(empty, right, left, up, down, empty, empty, p);
        let nrw = walks(WalkKind::NoRetrace, nc, nr, a, b, maxstop, i, j, prev, nstop, rem);
        assert(nrw =~= empty.filter(p) + right.filter(p) + left.filter(p) + up.filter(p) + down.filter(p) + empty.filter(p) + empty.filter(p));
    }
}

/// The walks that never undo their previous move are the square-lattice walks in which no two
/// neighbouring moves are `rl`, `lr`, `ud` or `du`, in the same order.
pub proof fn law_no_retrace_walks_filter_square_walks(nc: int, nr: int, a: int, b: int, x: int, y: int, n: nat)
    ensures
        walks(WalkKind::Square, nc, nr, a, b, 0, x, y, None, 0, n).filter(retrace_free(None))
            == walks(WalkKind::NoRetrace, nc, nr, a, b, 0, x, y, None, 0, n),
{
    lemma_no_retrace_filter(nc, nr, a, b, 0, x, y, None, 0, n);
}

proof fn lemma_with_prefix_add(p: Seq<char>, x: Seq<Seq<char>>, y: Seq<Seq<char>>)
    ensures with_prefix(p, x + y) == with_prefix(p, x) + with_prefix(p, y),
{
    assert(with_prefix(p, x + y) =~= with_prefix(p, x) + with_prefix(p, y));
}

proof fn lemma_with_prefix_prefixed(p: Seq<char>, c: char, ws: Seq<Seq<char>>)
    ensures with_prefix(p, prefixed(c, ws)) == with_prefix(p.push(c), ws),
{
    assert forall|k: int| 0 <= k < ws.len() implies
        #[trigger] with_prefix(p, prefixed(c, ws))[k] == with_prefix(p.push(c), ws)[k] by {
        assert(p + (seq![c] + ws[k]) =~= p.push(c) + ws[k]);
    }
    assert(with_prefix(p, prefixed(c, ws)) =~= with_prefix(p.push(c), ws));
}

/// The walks that a move contributes: none when it is not allowed.
pub open spec fn move_walks(allowed: bool, c: char, kind: WalkKind, nc: int, nr: int, a: int, b: int,
    maxstop: int, i: int, j: int, nstop: int, rem: nat) -> Seq<Seq<char>> {
    if allowed {
        prefixed(c, walks(kind, nc, nr, a, b, maxstop, i, j, Some(c), nstop, rem))
    } else {
        Seq::empty()
    }
}

/// When `allowed`, tries the move `c` to `(i, j)`: records it in `path`, collects the walks from
/// there, and takes it back.
fn walk_move(allowed: bool, kind: &WalkKind, nc: i32, nr: i32, a: i32, b: i32, maxstop: i32,
    c: char, i: i32, j: i32, nstop: i32, rem: usize, path: &mut Vec<char>, out: &mut Vec<String>)
    requires
        allowed ==> 0 <= i <= nc && 0 <= j <= nr && 0 <= nstop <= maxstop,
        nc < i32::MAX,
        nr < i32::MAX,
    ensures
        final(path)@ == old(path)@,
        strings_view(final(out)@) == strings_view(old(out)@)
            + with_prefix(old(path)@, move_walks(allowed, c, *kind, nc as int, nr as int, a as int, b as int,
                maxstop as int, i as int, j as int, nstop as int, rem as nat)),
    decreases rem, 2int,
{
    if !allowed {
        assert(strings_view(out@) =~= strings_view(old(out)@) + with_prefix(old(path)@, Seq::empty()));
        return;
    }
    path.push(c);
    walk(kind, nc, nr, a, b, maxstop, i, j, Some(c), nstop, rem, path, out);
    path.pop();
    proof {
        assert(path@ =~= old(path)@);
        lemma_with_prefix_prefixed(old(path)@, c, walks(*kind, nc as int, nr as int, a as int, b as int,
            maxstop as int, i as int, j as int, Some(c), nstop as int, rem as nat));
    }
}

fn is_prev(prev: Option<char>, c: char) -> (r: bool)
    ensures r == (prev == Some(c)),
{
    match prev {
        Some(p) => p == c,
        None => false,
    }
}

/// Appends to `out` every walk of `rem` moves from `(i, j)` to `(a, b)`, each after `path`.
fn walk(kind: &WalkKind, nc: i32, nr: i32, a: i32, b: i32, maxstop: i32,
    i: i32, j: i32, prev: Option<char>, nstop: i32, rem: usize, path: &mut Vec<char>, out: &mut Vec<String>)
    requires
        0 <= i <= nc,
        0 <= j <= nr,
        0 <= nstop <= maxstop,
        nc < i32::MAX,
        nr < i32::MAX,
    ensures
        final(path)@ == old(path)@,
        strings_view(final(out)@) == strings_view(old(out)@)
            + with_prefix(old(path)@, walks(*kind, nc as int, nr as int, a as int, b as int,
                maxstop as int, i as int, j as int, prev, nstop as int, rem as nat)),
    decreases rem, 1int,
{
    let ghost p0 = path@;
    let ghost o0 = strings_view(out@);
    let ghost k = *kind;
    let ghost whole = walks(k, nc as int, nr as int, a as int, b as int, maxstop as int,
        i as int, j as int, prev, nstop as int, rem as nat);
    if rem == 0 {
        if i == a && j == b {
            let s = string_of(path);
            out.push(s);
        }
        assert(strings_view(out@) =~= o0 + with_prefix(p0, whole));
        return;
    }
    let r1 = rem - 1;
    let is_stops = match kind { WalkKind::WithStops => true, _ => false };
    let is_tri = match kind { WalkKind::Triangular => true, _ => false };
    let no_retrace = match kind { WalkKind::NoRetrace => true, _ => false };
    proof { lemma_walks_unfold(k, nc as int, nr as int, a as int, b as int, maxstop as int, i as int, j as int, prev, nstop as int, rem as nat); }
    let ghost q = r1 as nat;
    let c1 = is_stops && nstop < maxstop;
    let ns = if c1 { nstop + 1 } else { nstop };
    walk_move(c1, kind, nc, nr, a, b, maxstop, 's', i, j, ns, r1, path, out);
    let ghost acc = move_walks(c1, 's', k, nc as int, nr as int, a as int, b as int, maxstop as int, i as int, j as int, nstop + 1, q);
    assert(strings_view(out@) == o0 + with_prefix(p0, acc));
    let c2 = i < nc && !(no_retrace && is_prev(prev, 'l'));
    walk_move(c2, kind, nc, nr, a, b, maxstop, 'r', i + 1, j, 0, r1, path, out);
    proof { acc = lemma_grow(o0, p0, acc, move_walks(c2, 'r', k, nc as int, nr as int, a as int, b as int, maxstop as int, i + 1, j as int, 0, q), strings_view(out@)); }
    let c3 = i > 0 && !(no_retrace && is_prev(prev, 'r'));
    walk_move(c3, kind, nc, nr, a, b, maxstop, 'l', i - 1, j, 0, r1, path, out);
    proof { acc = lemma_grow(o0, p0, acc, move_walks(c3, 'l', k, nc as int, nr as int, a as int, b as int, maxstop as int, i - 1, j as int, 0, q), strings_view(out@)); }
    let c4 = j < nr && !(no_retrace && is_prev(prev, 'd'));
    walk_move(c4, kind, nc, nr, a, b, maxstop, 'u', i, j + 1, 0, r1, path, out);
    proof { acc = lemma_grow(o0, p0, acc, move_walks(c4, 'u', k, nc as int, nr as int, a as int, b as int, maxstop as int, i as int, j + 1, 0, q), strings_view(out@)); }
    let c5 = j > 0 && !(no_retrace && is_prev(prev, 'u'));
    walk_move(c5, kind, nc, nr, a, b, maxstop, 'd', i, j - 1, 0, r1, path, out);
    proof { acc = lemma_grow(o0, p0, acc, move_walks(c5, 'd', k, nc as int, nr as int, a as int, b as int, maxstop as int, i as int, j - 1, 0, q), strings_view(out@)); }
    let c6 = is_tri && j < nr && i < nc;
    walk_move(c6, kind, nc, nr, a, b, maxstop, 'v', i + 1, j + 1, 0, r1, path, out);
    proof { acc = lemma_grow(o0, p0, acc, move_walks(c6, 'v', k, nc as int, nr as int, a as int, b as int, maxstop as int, i + 1, j + 1, 0, q), strings_view(out@)); }
    let c7 = is_tri && j > 0 && i > 0;
    walk_move(c7, kind, nc, nr, a, b, maxstop, 'e', i - 1, j - 1, 0, r1, path, out);
    proof { acc = lemma_grow(o0, p0, acc, move_walks(c7, 'e', k, nc as int, nr as int, a as int, b as int, maxstop as int, i - 1, j - 1, 0, q), strings_view(out@)); }
}

/// Adding the walks `w` to those collected so far.
proof fn lemma_grow(o0: Seq<Seq<char>>, p: Seq<char>, acc: Seq<Seq<char>>, w: Seq<Seq<char>>, out: Seq<Seq<char>>)
    -> (acc2: Seq<Seq<char>>)
    requires
        exists|mid: Seq<Seq<char>>| mid == o0 + with_prefix(p, acc) && out == mid + with_prefix(p, w),
    ensures
        acc2 == acc + w,
        out == o0 + with_prefix(p, acc2),
{
    lemma_with_prefix_add(p, acc, w);
    assert(out =~= o0 + with_prefix(p, acc + w));
    acc + w
}

proof fn lemma_walks_unfold(kind: WalkKind, nc: int, nr: int, a: int, b: int, maxstop: int,
    i: int, j: int, prev: Option<char>, nstop: int, rem: nat)
    requires rem > 0,
    ensures ({
        let q = (rem - 1) as nat;
        walks(kind, nc, nr, a, b, maxstop, i, j, prev, nstop, rem)
            == move_walks(kind is WithStops && nstop < maxstop, 's', kind, nc, nr, a, b, maxstop, i, j, nstop + 1, q)
            + move_walks(i < nc && !undoes(kind, prev, 'l'), 'r', kind, nc, nr, a, b, maxstop, i + 1, j, 0, q)
            + move_walks(i > 0 && !undoes(kind, prev, 'r'), 'l', kind, nc, nr, a, b, maxstop, i - 1, j, 0, q)
            + move_walks(j < nr && !undoes(kind, prev, 'd'), 'u', kind, nc, nr, a, b, maxstop, i, j + 1, 0, q)
            + move_walks(j > 0 && !undoes(kind, prev, 'u'), 'd', kind, nc, nr, a, b, maxstop, i, j - 1, 0, q)
            + move_walks(kind is Triangular && j < nr && i < nc, 'v', kind, nc, nr, a, b, maxstop, i + 1, j + 1, 0, q)
            + move_walks(kind is Triangular && j > 0 && i > 0, 'e', kind, nc, nr, a, b, maxstop, i - 1, j - 1, 0, q)
    }),
{
}

proof fn lemma_prefixed_lengths(c: char, ws: Seq<Seq<char>>, n: nat)
    requires forall|k: int| 0 <= k < ws.len() ==> (#[trigger] ws[k]).len() == n,
    ensures forall|k: int| 0 <= k < prefixed(c, ws).len() ==> (#[trigger] prefixed(c, ws)[k]).len() == n + 1,
{
}

proof fn lemma_concat_lengths(x: Seq<Seq<char>>, y: Seq<Seq<char>>, n: nat)
    requires
        forall|k: int| 0 <= k < x.len() ==> (#[trigger] x[k]).len() == n,
        forall|k: int| 0 <= k < y.len() ==> (#[trigger] y[k]).len() == n,
    ensures forall|k: int| 0 <= k < (x + y).len() ==> (#[trigger] (x + y)[k]).len() == n,
{
    assert forall|k: int| 0 <= k < (x + y).len() implies (#[trigger] (x + y)[k]).len() == n by {
        if k < x.len() { assert((x + y)[k] == x[k]); } else { assert((x + y)[k] == y[k - x.len()]); }
    }
}

proof fn lemma_move_lengths(allowed: bool, c: char, kind: WalkKind, nc: int, nr: int, a: int, b: int,
    maxstop: int, i: int, j: int, nstop: int, rem: nat)
    ensures forall|k: int| 0 <= k < move_walks(allowed, c, kind, nc, nr, a, b, maxstop, i, j, nstop, rem).len()
        ==> (#[trigger] move_walks(allowed, c, kind, nc, nr, a, b, maxstop, i, j, nstop, rem)[k]).len() == rem + 1,
    decreases rem, 2int,
{
    if allowed {
        law_walk_lengths(kind, nc, nr, a, b, maxstop, i, j, Some(c), nstop, rem);
        lemma_prefixed_lengths(c, walks(kind, nc, nr, a, b, maxstop, i, j, Some(c), nstop, rem), rem);
    }
}

/// Every walk listed has exactly the requested number of moves.
pub proof fn law_walk_lengths(kind: WalkKind, nc: int, nr: int, a: int, b: int, maxstop: int,
    i: int, j: int, prev: Option<char>, nstop: int, rem: nat)
    ensures forall|k: int| 0 <= k < walks(kind, nc, nr, a, b, maxstop, i, j, prev, nstop, rem).len()
        ==> (#[trigger] walks(kind, nc, nr, a, b, maxstop, i, j, prev, nstop, rem)[k]).len() == rem,
    decreases rem, 1int,
{
    if rem > 0 {
        let q = (rem - 1) as nat;
        lemma_walks_unfold(kind, nc, nr, a, b, maxstop, i, j, prev, nstop, rem);
        let w1 = move_walks(kind is WithStops && nstop < maxstop, 's', kind, nc, nr, a, b, maxstop, i, j, nstop + 1, q);
        let w2 = move_walks(i < nc && !undoes(kind, prev, 'l'), 'r', kind, nc, nr, a, b, maxstop, i + 1, j, 0, q);
        let w3 = move_walks(i > 0 && !undoes(kind, prev, 'r'), 'l', kind, nc, nr, a, b, maxstop, i - 1, j, 0, q);
        let w4 = move_walks(j < nr && !undoes(kind, prev, 'd'), 'u', kind, nc, nr, a, b, maxstop, i, j + 1, 0, q);
        let w5 = move_walks(j > 0 && !undoes(kind, prev, 'u'), 'd', kind, nc, nr, a, b, maxstop, i, j - 1, 0, q);
        let w6 = move_walks(kind is Triangular && j < nr && i < nc, 'v', kind, nc, nr, a, b, maxstop, i + 1, j + 1, 0, q);
        let w7 = move_walks(kind is Triangular && j > 0 && i > 0, 'e', kind, nc, nr, a, b, maxstop, i - 1, j - 1, 0, q);
        lemma_move_lengths(kind is WithStops && nstop < maxstop, 's', kind, nc, nr, a, b, maxstop, i, j, nstop + 1, q);
        lemma_move_lengths(i < nc && !undoes(kind, prev, 'l'), 'r', kind, nc, nr, a, b, maxstop, i + 1, j, 0, q);
        lemma_move_lengths(i > 0 && !undoes(kind, prev, 'r'), 'l', kind, nc, nr, a, b, maxstop, i - 1, j, 0, q);
        lemma_move_lengths(j < nr && !undoes(kind, prev, 'd'), 'u', kind, nc, nr, a, b, maxstop, i, j + 1, 0, q);
        lemma_move_lengths(j > 0 && !undoes(kind, prev, 'u'), 'd', kind, nc, nr, a, b, maxstop, i, j - 1, 0, q);
        lemma_move_lengths(kind is Triangular && j < nr && i < nc, 'v', kind, nc, nr, a, b, maxstop, i + 1, j + 1, 0, q);
        lemma_move_lengths(kind is Triangular && j > 0 && i > 0, 'e', kind, nc, nr, a, b, maxstop, i - 1, j - 1, 0, q);
        lemma_concat_lengths(w1, w2, rem);
        lemma_concat_lengths(w1 + w2, w3, rem);
        lemma_concat_lengths(w1 + w2 + w3, w4, rem);
        lemma_concat_lengths(w1 + w2 + w3 + w4, w5, rem);
        lemma_concat_lengths(w1 + w2 + w3 + w4 + w5, w6, rem);
        lemma_concat_lengths(w1 + w2 + w3 + w4 + w5 + w6, w7, rem);
    } else {
        assert forall|k: int| 0 <= k < walks(kind, nc, nr, a, b, maxstop, i, j, prev, nstop, rem).len()
            implies (#[trigger] walks(kind, nc, nr, a, b, maxstop, i, j, prev, nstop, rem)[k]).len() == rem by {
            assert(walks(kind, nc, nr, a, b, maxstop, i, j, prev, nstop, rem)[k] == Seq::<char>::empty());
        }
    }
}

pub open spec fn position_msg(fn_name: Seq<char>, which: Seq<char>, x: int, y: int) -> Seq<char> {
    fn_name + "() invalid "@ + which + " position ("@ + signed_decimal(x) + ", "@ + signed_decimal(y) + ")"@
}

fn position_error(fn_name: &str, which: &str, x: i32, y: i32) -> (e: AudionError)
    ensures error_is(e, position_msg(fn_name@, which@, x as int, y as int)),
{
    let mut msg = String::from_str(fn_name);
    msg.append("() invalid ");
    msg.append(which);
    msg.append(" position (");
    push_signed(&mut msg, x as i64);
    msg.append(", ");
    push_signed(&mut msg, y as i64);
    msg.append(")");
    AudionError::RuntimeError { msg }
}

/// Whether `e` is a runtime error with exactly this message.
pub open spec fn error_is(e: AudionError, msg: Seq<char>) -> bool {
    match e {
        AudionError::RuntimeError { msg: m } => m@ == msg,
        _ => false,
    }
}

/// The outcome of a lattice-walk request: errors for a start or end off the lattice
/// (columns `0..ncols`, rows `0..nrows`) or too long a walk, else every walk in order.
pub open spec fn walk_outcome(r: Result<Vec<String>, AudionError>, kind: WalkKind, fn_name: Seq<char>,
    too_long: Seq<char>, ncols: int, nrows: int, x: int, y: int, a: int, b: int, maxstop: int, n: nat) -> bool {
    let nc = ncols - 1;
    let nr = nrows - 1;
    if x > nc || x < 0 || y > nr || y < 0 {
        is_runtime_error(r, position_msg(fn_name, "start"@, x, y))
    } else if a > nc || a < 0 || b > nr || b < 0 {
        is_runtime_error(r, position_msg(fn_name, "end"@, a, b))
    } else if n > 128 {
        is_runtime_error(r, too_long)
    } else {
        r matches Ok(v) && strings_view(v@) == walks(kind, nc, nr, a, b, maxstop, x, y, None, 0, n)
    }
}

fn run_walk(kind: WalkKind, fn_name: &str, too_long: &str, ncols: i32, nrows: i32, x: i32, y: i32,
    a: i32, b: i32, maxstop: i32, n: usize) -> (r: Result<Vec<String>, AudionError>)
    requires
        ncols > i32::MIN,
        nrows > i32::MIN,
        maxstop >= 0,
    ensures
        walk_outcome(r, kind, fn_name@, too_long@, ncols as int, nrows as int, x as int, y as int,
            a as int, b as int, maxstop as int, n as nat),
{
    let nc = ncols - 1;
    let nr = nrows - 1;
    if x > nc || x < 0 || y > nr || y < 0 {
        return Err(position_error(fn_name, "start", x, y));
    }
    if a > nc || a < 0 || b > nr || b < 0 {
        return Err(position_error(fn_name, "end", a, b));
    }
    if n > 128 {
        return Err(AudionError::RuntimeError { msg: String::from_str(too_long) });
    }
    let mut path: Vec<char> = Vec::new();
    let mut out: Vec<String> = Vec::new();
    walk(&kind, nc, nr, a, b, maxstop, x, y, None, 0, n, &mut path, &mut out);
    proof {
        let ws = walks(kind, nc as int, nr as int, a as int, b as int, maxstop as int, x as int, y as int, None, 0, n as nat);
        assert forall|k: int| 0 <= k < ws.len() implies #[trigger] with_prefix(Seq::empty(), ws)[k] == ws[k] by {
            assert(Seq::<char>::empty() + ws[k] =~= ws[k]);
        }
        assert(with_prefix(Seq::empty(), ws) =~= ws);
        assert(strings_view(Seq::<String>::empty()) =~= Seq::<Seq<char>>::empty());
        assert(strings_view(out@) =~= ws);
    }
    Ok(out)
}

/// All walks of `n` moves on the square lattice of `ncols` columns and `nrows` rows from
/// `(x, y)` to `(a, b)`, as strings of `r`, `l`, `u`, `d`.
pub fn array_mel_lattice_walk_square(ncols: i32, nrows: i32, x: i32, y: i32, a: i32, b: i32, n: usize)
    -> (r: Result<Vec<String>, AudionError>)
    requires
        ncols > i32::MIN,
        nrows > i32::MIN,
    ensures
        walk_outcome(r, WalkKind::Square, "array_mel_lattice_walk_square"@,
            "array_mel_lattice_walk_square() path length too long (max 128)"@,
            ncols as int, nrows as int, x as int, y as int, a as int, b as int, 0, n as nat),
{
    run_walk(WalkKind::Square, "array_mel_lattice_walk_square",
        "array_mel_lattice_walk_square() path length too long (max 128)", ncols, nrows, x, y, a, b, 0, n)
}

/// All walks of `n` moves on the triangular lattice (the square moves plus the diagonals
/// `v`, up-right, and `e`, down-left) from `(x, y)` to `(a, b)`.
pub fn array_mel_lattice_walk_tri(ncols: i32, nrows: i32, x: i32, y: i32, a: i32, b: i32, n: usize)
    -> (r: Result<Vec<String>, AudionError>)
    requires
        ncols > i32::MIN,
        nrows > i32::MIN,
    ensures
        walk_outcome(r, WalkKind::Triangular, "array_mel_lattice_walk_tri"@,
            "array_mel_lattice_walk_tri() path length too long (max 128)"@,
            ncols as int, nrows as int, x as int, y as int, a as int, b as int, 0, n as nat),
{
    run_walk(WalkKind::Triangular, "array_mel_lattice_walk_tri",
        "array_mel_lattice_walk_tri() path length too long (max 128)", ncols, nrows, x, y, a, b, 0, n)
}

/// All walks of `n` moves on the square lattice from `(x, y)` to `(a, b)` that never undo the
/// previous move.
pub fn array_mel_lattice_walk_square_no_retrace(ncols: i32, nrows: i32, x: i32, y: i32, a: i32, b: i32, n: usize)
    -> (r: Result<Vec<String>, AudionError>)
    requires
        ncols > i32::MIN,
        nrows > i32::MIN,
    ensures
        walk_outcome(r, WalkKind::NoRetrace, "array_mel_lattice_walk_square_no_retrace"@,
            "array_mel_lattice_walk_square_no_retrace() path length too long (max 128)"@,
            ncols as int, nrows as int, x as int, y as int, a as int, b as int, 0, n as nat),
{
    run_walk(WalkKind::NoRetrace, "array_mel_lattice_walk_square_no_retrace",
        "array_mel_lattice_walk_square_no_retrace() path length too long (max 128)", ncols, nrows, x, y, a, b, 0, n)
}

/// All walks of `n` steps on the square lattice from `(x, y)` to `(a, b)` where a step may also
/// stay in place (`s`), at most `max_stops` times in a row.
pub fn array_mel_lattice_walk_square_with_stops(ncols: i32, nrows: i32, x: i32, y: i32, a: i32, b: i32,
    max_stops: i32, n: usize) -> (r: Result<Vec<String>, AudionError>)
    requires
        ncols > i32::MIN,
        nrows > i32::MIN,
    ensures
        (x > ncols - 1 || x < 0 || y > nrows - 1 || y < 0 || a > ncols - 1 || a < 0 || b > nrows - 1 || b < 0
            || max_stops >= 0) ==> walk_outcome(r, WalkKind::WithStops, "array_mel_lattice_walk_square_with_stops"@,
            "array_mel_lattice_walk_square_with_stops() walk length too long (max 128)"@,
            ncols as int, nrows as int, x as int, y as int, a as int, b as int, max_stops as int, n as nat),
        !(x > ncols - 1 || x < 0 || y > nrows - 1 || y < 0 || a > ncols - 1 || a < 0 || b > nrows - 1 || b < 0)
            && max_stops < 0 ==> is_runtime_error(r, "array_mel_lattice_walk_square_with_stops() max_stops must be >= 0"@),
{
    let fn_name = "array_mel_lattice_walk_square_with_stops";
    let nc = ncols - 1;
    let nr = nrows - 1;
    if x > nc || x < 0 || y > nr || y < 0 {
        return Err(position_error(fn_name, "start", x, y));
    }
    if a > nc || a < 0 || b > nr || b < 0 {
        return Err(position_error(fn_name, "end", a, b));
    }
    if max_stops < 0 {
        return Err(AudionError::RuntimeError { msg: String::from_str("array_mel_lattice_walk_square_with_stops() max_stops must be >= 0") });
    }
    run_walk(WalkKind::WithStops, fn_name,
        "array_mel_lattice_walk_square_with_stops() walk length too long (max 128)", ncols, nrows, x, y, a, b, max_stops, n)
}

// ---------------------------------------------------------------------------
// Finite automaton words
// ---------------------------------------------------------------------------

/// An automaton as its states' transition lists: (next state, output).
pub open spec fn automaton_view(aut: Seq<Vec<(usize, String)>>) -> Seq<Seq<(usize, Seq<char>)>> {
    aut.map_values(|row: Vec<(usize, String)>| row@.map_values(|t: (usize, String)| (t.0, t.1@)))
}

/// The words of `rem` more symbols accepted from `state`: the outputs along each path of
/// transitions, in the order the transitions are listed, that ends in one of `ends`.
pub open spec fn accepted_words(aut: Seq<Seq<(usize, Seq<char>)>>, ends: Seq<usize>, state: usize, rem: nat)
    -> Seq<Seq<char>>
    decreases rem, 0int,
{
    if rem == 0 {
        if ends.contains(state) { seq![Seq::empty()] } else { Seq::empty() }
    } else if state < aut.len() {
        words_via(aut, ends, aut[state as int], (rem - 1) as nat)
    } else {
        Seq::empty()
    }
}

/// The words through each of the transitions `ts`, in order, with `rem` symbols after it.
pub open spec fn words_via(aut: Seq<Seq<(usize, Seq<char>)>>, ends: Seq<usize>, ts: Seq<(usize, Seq<char>)>, rem: nat)
    -> Seq<Seq<char>>
    decreases rem, ts.len(),
{
    if ts.len() == 0 {
        Seq::empty()
    } else {
        with_prefix(ts[0].1, accepted_words(aut, ends, ts[0].0, rem))
            + words_via(aut, ends, ts.drop_first(), rem)
    }
}

fn contains_state(ends: &[usize], s: usize) -> (r: bool)
    ensures r == ends@.contains(s),
{
    let mut i: usize = 0;
    while i < ends.len()
        invariant
            i <= ends@.len(),
            forall|k: int| 0 <= k < i ==> ends@[k] != s,
        decreases ends.len() - i,
    {
        if ends[i] == s {
            return true;
        }
        i += 1;
    }
    false
}

fn concat_chars(p: &Vec<char>, s: &str) -> (r: Vec<char>)
    ensures r@ == p@ + s@,
{
    let mut r: Vec<char> = Vec::new();
    let mut i: usize = 0;
    while i < p.len()
        invariant
            i <= p@.len(),
            r@ == p@.take(i as int),
        decreases p.len() - i,
    {
        r.push(p[i]);
        i += 1;
        assert(r@ =~= p@.take(i as int));
    }
    let cs = chars_of(s);
    let mut k: usize = 0;
    while k < cs.len()
        invariant
            cs@ == s@,
            k <= cs@.len(),
            r@ == p@ + cs@.take(k as int),
        decreases cs.len() - k,
    {
        r.push(cs[k]);
        k += 1;
        assert(r@ =~= p@ + cs@.take(k as int));
    }
    assert(cs@.take(cs@.len() as int) =~= cs@);
    r
}

proof fn lemma_with_prefix_concat(p: Seq<char>, q: Seq<char>, ws: Seq<Seq<char>>)
    ensures with_prefix(p, with_prefix(q, ws)) == with_prefix(p + q, ws),
{
    assert forall|k: int| 0 <= k < ws.len() implies
        #[trigger] with_prefix(p, with_prefix(q, ws))[k] == with_prefix(p + q, ws)[k] by {
        assert(p + (q + ws[k]) =~= (p + q) + ws[k]);
    }
    assert(with_prefix(p, with_prefix(q, ws)) =~= with_prefix(p + q, ws));
}

/// Appends to `out`, after `prefix`, every word of `rem` symbols accepted from `state`.
fn collect_words(aut: &Vec<Vec<(usize, String)>>, ends: &[usize], state: usize, rem: usize,
    prefix: &Vec<char>, out: &mut Vec<String>)
    ensures
        strings_view(final(out)@) == strings_view(old(out)@)
            + with_prefix(prefix@, accepted_words(automaton_view(aut@), ends@, state, rem as nat)),
    decreases rem, 0int,
{
    let ghost av = automaton_view(aut@);
    if rem == 0 {
        if contains_state(ends, state) {
            out.push(string_of(prefix));
        }
        assert(strings_view(out@) =~= strings_view(old(out)@)
            + with_prefix(prefix@, accepted_words(av, ends@, state, rem as nat)));
        return;
    }
    if state < aut.len() {
        collect_via(aut, ends, state, 0, rem - 1, prefix, out);
        assert(av[state as int].skip(0) =~= av[state as int]);
    } else {
        assert(strings_view(out@) =~= strings_view(old(out)@)
            + with_prefix(prefix@, accepted_words(av, ends@, state, rem as nat)));
    }
}

/// Appends to `out`, after `prefix`, the words through transitions `from..` of `state`.
fn collect_via(aut: &Vec<Vec<(usize, String)>>, ends: &[usize], state: usize, from: usize, rem: usize,
    prefix: &Vec<char>, out: &mut Vec<String>)
    requires
        state < aut@.len(),
        from <= aut@[state as int]@.len(),
    ensures
        strings_view(final(out)@) == strings_view(old(out)@)
            + with_prefix(prefix@, words_via(automaton_view(aut@), ends@,
                automaton_view(aut@)[state as int].skip(from as int), rem as nat)),
    decreases rem, aut@[state as int]@.len() - from + 1,
{
    let ghost av = automaton_view(aut@);
    let ghost ts = av[state as int].skip(from as int);
    if from == aut[state].len() {
        assert(ts.len() == 0);
        assert(strings_view(out@) =~= strings_view(old(out)@) + with_prefix(prefix@, words_via(av, ends@, ts, rem as nat)));
        return;
    }
    let next = aut[state][from].0;
    let p2 = concat_chars(prefix, aut[state][from].1.as_str());
    let ghost o0 = strings_view(out@);
    collect_words(aut, ends, next, rem, &p2, out);
    let ghost o1 = strings_view(out@);
    collect_via(aut, ends, state, from + 1, rem, prefix, out);
    proof {
        assert(ts[0] == (next, aut@[state as int]@[from as int].1@));
        assert(ts.drop_first() =~= av[state as int].skip(from + 1));
        lemma_with_prefix_concat(prefix@, ts[0].1, accepted_words(av, ends@, next, rem as nat));
        lemma_with_prefix_add(prefix@, with_prefix(ts[0].1, accepted_words(av, ends@, next, rem as nat)),
            words_via(av, ends@, ts.drop_first(), rem as nat));
        assert(strings_view(out@) =~= strings_view(old(out)@) + with_prefix(prefix@, words_via(av, ends@, ts, rem as nat)));
    }
}

pub open spec fn start_state_msg(start: nat, states: nat) -> Seq<char> {
    "array_mel_automaton() invalid start_state "@ + decimal(start) + " (automaton has "@ + decimal(states)
        + " states)"@
}

/// All words of `word_length` symbols that the automaton accepts from `start`: each state lists
/// its transitions as (next state, output); a word is the outputs along a path that ends in one
/// of `end_states`.
pub fn array_mel_automaton(automaton: &Vec<Vec<(usize, String)>>, start: usize, end_states: &[usize],
    word_length: usize) -> (r: Result<Vec<String>, AudionError>)
    ensures
        start >= automaton@.len() ==> is_runtime_error(r, start_state_msg(start as nat, automaton@.len())),
        start < automaton@.len() ==> (r matches Ok(v) && strings_view(v@)
            == accepted_words(automaton_view(automaton@), end_states@, start, word_length as nat)),
{
    if start >= automaton.len() {
        let mut msg = String::from_str("array_mel_automaton() invalid start_state ");
        push_decimal(&mut msg, start as u64);
        msg.append(" (automaton has ");
        push_decimal(&mut msg, automaton.len() as u64);
        msg.append(" states)");
        return Err(AudionError::RuntimeError { msg });
    }
    let mut out: Vec<String> = Vec::new();
    let prefix: Vec<char> = Vec::new();
    collect_words(automaton, end_states, start, word_length, &prefix, &mut out);
    proof {
        let ws = accepted_words(automaton_view(automaton@), end_states@, start, word_length as nat);
        assert forall|k: int| 0 <= k < ws.len() implies #[trigger] with_prefix(Seq::empty(), ws)[k] == ws[k] by {
            assert(Seq::<char>::empty() + ws[k] =~= ws[k]);
        }
        assert(with_prefix(Seq::empty(), ws) =~= ws);
        assert(strings_view(Seq::<String>::empty()) =~= Seq::<Seq<char>>::empty());
        assert(strings_view(out@) =~= ws);
    }
    Ok(out)
}

// ---------------------------------------------------------------------------
// De Bruijn sequences over k symbols
// ---------------------------------------------------------------------------

/// The argument errors of `array_mel_debruijn_k`, in the order they are checked.
pub open spec fn debruijn_k_error(k: nat, n: nat, v: nat) -> Option<Seq<char>> {
    if k < 2 {
        Some("array_mel_debruijn_k() k must be >= 2"@)
    } else if n < 1 {
        Some("array_mel_debruijn_k() n must be >= 1"@)
    } else if n > 8 || k > 10 {
        Some("array_mel_debruijn_k() n too large (max 8) or k too large (max 10)"@)
    } else if v >= pow(k as int, (n - 1) as nat) {
        Some("array_mel_debruijn_k() v must be < "@ + decimal(pow(k as int, (n - 1) as nat) as nat) + " for k="@
            + decimal(k) + ", n="@ + decimal(n))
    } else {
        None
    }
}

/// The error for a walk that leaves the de Bruijn graph.
pub open spec fn debruijn_walk_error() -> Seq<char> {
    "array_mel_debruijn_k() the walk left the de Bruijn graph"@
}

/// `10^e`.
pub open spec fn ten_to(e: nat) -> nat
    decreases e,
{
    if e == 0 { 1 } else { 10 * ten_to((e - 1) as nat) }
}

fn walk_error() -> (e: AudionError)
    ensures
        e matches AudionError::RuntimeError { msg } && msg@ == debruijn_walk_error(),
{
    AudionError::RuntimeError { msg: String::from_str("array_mel_debruijn_k() the walk left the de Bruijn graph") }
}

/// The walk of `debruijn_cycle` from the last vertex of `path` back to `i0`: from vertex `v`
/// it takes the edge `counts[v]` (the first one not used yet), to `(k * v) % nv + counts[v]`,
/// and counts it used. It ends when it comes back to `i0`, with the counts and the whole path;
/// it is `None` when an edge leads outside the `nv` vertices, or when `room` more vertices do
/// not suffice.
pub open spec fn db_walk(i0: int, k: int, nv: int, counts: Seq<usize>, path: Seq<usize>, room: nat)
    -> Option<(Seq<usize>, Seq<usize>)>
    decreases room,
{
    let cur = path.last() as int;
    if path.len() > 1 && cur == i0 {
        Some((counts, path))
    } else if room == 0 {
        None
    } else {
        let nxt = (k * cur) % nv + counts[cur];
        if nxt >= nv {
            None
        } else {
            db_walk(i0, k, nv, counts.update(cur, (counts[cur] + 1) as usize), path.push(nxt as usize), (room - 1) as nat)
        }
    }
}

/// Follows unused edges of the de Bruijn graph from vertex `i0` (vertex `v` leads to
/// `(k * v) % nv + e` by its edge `e`, `vec[v]` counting the edges already used) until it
/// comes back to `i0`, recording the vertices in `cvl`; returns how many edges it took.
/// `None` when the walk would leave the graph or overrun `cvl`.
fn debruijn_cycle(i0: usize, k: usize, nv: usize, vec: &mut Vec<usize>, cvl: &mut Vec<usize>) -> (r: Option<usize>)
    requires
        i0 < nv <= 10_000_000,
        2 <= k <= 10,
        old(vec)@.len() == nv,
        old(cvl)@.len() >= 2,
        old(cvl)@.len() <= 100_000_000,
        forall|v: int| 0 <= v < nv ==> old(vec)@[v] <= nv,
    ensures
        final(vec)@.len() == nv,
        final(cvl)@.len() == old(cvl)@.len(),
        forall|v: int| 0 <= v < nv ==> final(vec)@[v] <= nv,
        r matches Some(clen) ==> 1 <= clen < final(cvl)@.len()
            && forall|j: int| 0 <= j <= clen ==> final(cvl)@[j] < nv,
        match db_walk(i0 as int, k as int, nv as int, old(vec)@, seq![i0], (old(cvl)@.len() - 1) as nat) {
            Some((counts, path)) => r == Some((path.len() - 1) as usize) && final(vec)@ == counts
                && 2 <= path.len() <= old(cvl)@.len()
                && final(cvl)@.take(path.len() as int) == path,
            None => r is None,
        },
{
    let ghost room0: nat = (cvl@.len() - 1) as nat;
    let ghost walk0 = db_walk(i0 as int, k as int, nv as int, vec@, seq![i0], room0);
    let mut clen: usize = 1;
    cvl.set(0, i0);
    assert(k * i0 < 100_000_000) by (nonlinear_arith)
        requires k <= 10, i0 < 10_000_000;
    let i1_start = (k * i0) % nv + vec[i0];
    if i1_start >= nv {
        return None;
    }
    vec.set(i0, vec[i0] + 1);
    cvl.set(1, i1_start);
    let mut i1 = i1_start;
    assert(cvl@.take(2) =~= seq![i0].push(i1_start));
    while i1 != i0
        invariant
            i0 < nv <= 10_000_000,
            2 <= k <= 10,
            vec@.len() == nv,
            cvl@.len() == old(cvl)@.len(),
            room0 == cvl@.len() - 1,
            2 <= cvl@.len() <= 100_000_000,
            1 <= clen < cvl@.len(),
            i1 < nv,
            cvl@[clen as int] == i1,
            forall|j: int| 0 <= j <= clen ==> cvl@[j] < nv,
            forall|v: int| 0 <= v < nv ==> vec@[v] <= nv,
            walk0 == db_walk(i0 as int, k as int, nv as int, old(vec)@, seq![i0], room0),
            walk0 == db_walk(i0 as int, k as int, nv as int, vec@, cvl@.take(clen + 1), (room0 - clen) as nat),
        decreases cvl@.len() - clen,
    {
        let ghost path = cvl@.take(clen + 1);
        let ghost room: nat = (room0 - clen) as nat;
        assert(path.last() == i1);
        assert(path.len() > 1 && path.last() as int != i0 as int);
        if clen + 1 >= cvl.len() {
            assert(room == 0);
            assert(db_walk(i0 as int, k as int, nv as int, vec@, path, room) is None);
            return None;
        }
        clen += 1;
        assert(k * i1 < 100_000_000) by (nonlinear_arith)
            requires k <= 10, i1 < 10_000_000;
        let i2 = (k * i1) % nv + vec[i1];
        if i2 >= nv {
            assert(room > 0);
            assert(db_walk(i0 as int, k as int, nv as int, vec@, path, room) is None);
            return None;
        }
        vec.set(i1, vec[i1] + 1);
        cvl.set(clen, i2);
        assert(cvl@.take(clen + 1) =~= path.push(i2));
        i1 = i2;
    }
    assert(cvl@.take(clen + 1).last() == i0);
    Some(clen)
}

/// The text of a list of digits.
pub open spec fn digit_text(d: Seq<u8>) -> Seq<char> {
    Seq::new(d.len(), |i: int| crate::text::digit_char(d[i] as nat))
}

/// The word of length `n` that starts at position `i` of `s`, read cyclically.
pub open spec fn cyclic_window(s: Seq<char>, n: nat, i: int) -> Seq<char> {
    Seq::new(n, |j: int| s[(i + j) % (s.len() as int)])
}

/// `w` is a word of `n` digits below `k`.
pub open spec fn is_digit_word(w: Seq<char>, k: nat, n: nat) -> bool {
    &&& w.len() == n
    &&& forall|j: int| 0 <= j < w.len() ==> '0' <= #[trigger] w[j] && (w[j] as int) < '0' as int + k
}

/// Every word of `n` digits below `k` occurs exactly once in `s`, read cyclically: `s` is a
/// de Bruijn sequence of order `n` over the digits `0..k`.
pub open spec fn is_de_bruijn(s: Seq<char>, k: nat, n: nat) -> bool {
    forall|w: Seq<char>| #[trigger] is_digit_word(w, k, n) ==> exists|i: int| {
        &&& 0 <= i < s.len()
        &&& cyclic_window(s, n, i) == w
        &&& forall|i2: int| 0 <= i2 < s.len() && cyclic_window(s, n, i2) == w ==> i2 == i
    }
}

/// The first position from `j` on, before `end`, of a vertex of `path` with an unused edge
/// (fewer than `k` used by `counts`), or `end` when there is none.
pub open spec fn first_free(counts: Seq<usize>, path: Seq<usize>, k: int, j: nat, end: nat) -> nat
    decreases end - j,
{
    if j >= end {
        end
    } else if counts[path[j as int] as int] < k {
        j
    } else {
        first_free(counts, path, k, j + 1, end)
    }
}

/// Whether the edges `from..from + cnt` of `path` go, as de Bruijn edges, forward from the
/// first vertex their source leads to.
pub open spec fn edges_ok(path: Seq<usize>, from: int, cnt: int, k: int, nv: int) -> bool {
    forall|x: int| from <= x < from + cnt ==> #[trigger] path[x + 1] >= (k * path[x]) % nv
}

/// The digit of edge `x` of `path`: which of its source's `k` edges it is.
pub open spec fn edge_digit(path: Seq<usize>, x: int, k: int, nv: int) -> u8 {
    ((path[x + 1] - (k * path[x]) % nv) % k) as u8
}

/// `d` with the digits of the edges `from..from + cnt` of `path` written from position `at`.
pub open spec fn write_edges(d: Seq<u8>, at: int, path: Seq<usize>, from: int, cnt: int, k: int, nv: int) -> Seq<u8> {
    Seq::new(d.len(), |y: int| if at <= y < at + cnt { edge_digit(path, y - at + from, k, nv) } else { d[y] })
}

/// One cycle of the de Bruijn construction from the state (edge counts, digits, front and back
/// fill positions, edges taken, start vertex): the walk back to the start vertex; the part of
/// it up to its first vertex with an unused edge goes to the front, the rest to the back, and
/// that vertex starts the next cycle (the start vertex again when there is none). None when
/// the walk fails or the parts do not fit.
pub open spec fn db_step(k: int, nv: int, ls: int, st: (Seq<usize>, Seq<u8>, int, int, int, int))
    -> Option<(Seq<usize>, Seq<u8>, int, int, int, int)> {
    let (counts, digits, is0, is1, i, v) = st;
    match db_walk(v, k, nv, counts, seq![v as usize], (ls - 1) as nat) {
        None => None,
        Some((c2, path)) => {
            let clen = path.len() - 1;
            let j = first_free(c2, path, k, 1, clen as nat);
            let clen0 = if j < clen { j as int } else { clen };
            let clen1 = clen - clen0;
            let v2 = if j < clen { path[j as int] as int } else { v };
            let i2 = if clen < ls - i { i + clen } else { ls };
            if clen0 > ls - is0 || !edges_ok(path, 0, clen0, k, nv) || clen1 > is1
                || !edges_ok(path, clen0, clen1, k, nv) {
                None
            } else {
                let d1 = write_edges(digits, is0, path, 0, clen0, k, nv);
                let d2 = write_edges(d1, is1 - clen1, path, clen0, clen1, k, nv);
                Some((c2, d2, is0 + clen0, is1 - clen1, i2, v2))
            }
        },
    }
}

/// The cycles of the construction from a state until `ls` edges are taken (at most `fuel`
/// cycles): the digits, or none when a cycle fails.
pub open spec fn db_run(k: int, nv: int, ls: int, st: (Seq<usize>, Seq<u8>, int, int, int, int), fuel: nat) -> Option<Seq<u8>>
    decreases fuel,
{
    if st.4 >= ls {
        Some(st.1)
    } else if fuel == 0 {
        None
    } else {
        match db_step(k, nv, ls, st) {
            None => None,
            Some(s2) => db_run(k, nv, ls, s2, (fuel - 1) as nat),
        }
    }
}

/// The digits that the cycle-joining construction gives for order `n` over `k` digits from
/// vertex `v` of the de Bruijn graph of `k^(n-1)` vertices, or none when it fails.
pub open spec fn debruijn_k_digits(k: nat, n: nat, v: nat) -> Option<Seq<u8>> {
    let nv = pow(k as int, (n - 1) as nat);
    let ls = k * nv;
    db_run(k as int, nv, ls, (Seq::new(nv as nat, |x: int| 0usize), Seq::new(ls as nat, |x: int| 0u8), 0, ls, 0, v as int),
        (ls + 1) as nat)
}

/// `array_mel_debruijn_k(k, n, v)`: a de Bruijn sequence of order `n` over the digits
/// `0..k`, built by joining the cycles of the de Bruijn graph of `k^(n-1)` vertices from
/// vertex `v`, as a string of digits; for order 1 it is the digits in order. For higher orders
/// the digits are exactly those of the construction (`debruijn_k_digits`), and the walk error
/// is returned where a walk of the construction would leave the graph.
pub fn array_mel_debruijn_k(k: usize, n: usize, v0: usize) -> (r: Result<String, AudionError>)
    ensures
        match debruijn_k_error(k as nat, n as nat, v0 as nat) {
            Some(m) => is_runtime_error(r, m),
            None => match r {
                Ok(s) => s@.len() == pow(k as int, n as nat)
                    && (forall|i: int| 0 <= i < s@.len() ==> '0' <= #[trigger] s@[i] && (s@[i] as int) < '0' as int + k),
                Err(_) => n >= 2 && is_runtime_error(r, debruijn_walk_error()),
            },
        },
        debruijn_k_error(k as nat, n as nat, v0 as nat) is None && n == 1 ==>
            (r matches Ok(s) && is_de_bruijn(s@, k as nat, 1)),
        debruijn_k_error(k as nat, n as nat, v0 as nat) is None && n >= 2 ==> match debruijn_k_digits(k as nat, n as nat, v0 as nat) {
            Some(d) => r matches Ok(s) && s@ == digit_text(d),
            None => r is Err,
        },
{
    if k < 2 {
        return Err(AudionError::RuntimeError { msg: String::from_str("array_mel_debruijn_k() k must be >= 2") });
    }
    if n < 1 {
        return Err(AudionError::RuntimeError { msg: String::from_str("array_mel_debruijn_k() n must be >= 1") });
    }
    if n > 8 || k > 10 {
        return Err(AudionError::RuntimeError {
            msg: String::from_str("array_mel_debruijn_k() n too large (max 8) or k too large (max 10)"),
        });
    }
    let mut nv: usize = 1;
    let mut t: usize = 1;
    proof { reveal(pow); }
    while t < n
        invariant
            1 <= t <= n <= 8,
            2 <= k <= 10,
            nv == pow(k as int, (t - 1) as nat),
            1 <= nv <= ten_to((t - 1) as nat),
            ten_to((t - 1) as nat) <= 10_000_000,
        decreases n - t,
    {
        proof {
            reveal_with_fuel(ten_to, 9);
            reveal(pow);
            assert(nv * k <= ten_to((t - 1) as nat) * 10) by (nonlinear_arith)
                requires nv <= ten_to((t - 1) as nat), k <= 10;
            assert(nv * k >= 1) by (nonlinear_arith)
                requires nv >= 1, k >= 2;
            assert(pow(k as int, t as nat) == k * pow(k as int, (t - 1) as nat));
        }
        nv = nv * k;
        t += 1;
    }
    proof {
        reveal_with_fuel(ten_to, 9);
    }
    if v0 >= nv {
        let mut msg = String::from_str("array_mel_debruijn_k() v must be < ");
        push_decimal(&mut msg, nv as u64);
        msg.append(" for k=");
        push_decimal(&mut msg, k as u64);
        msg.append(", n=");
        push_decimal(&mut msg, n as u64);
        return Err(AudionError::RuntimeError { msg });
    }
    if n == 1 {
        return Ok(digits_in_order(k));
    }
    assert(k * nv <= 100_000_000) by (nonlinear_arith)
        requires k <= 10, nv <= 10_000_000;
    assert(k * nv >= 2) by (nonlinear_arith)
        requires k >= 2, nv >= 1;
    let ls = k * nv;
    proof {
        reveal(pow);
        assert(pow(k as int, n as nat) == k * pow(k as int, (n - 1) as nat));
    }
    assert(ls == pow(k as int, n as nat));
    let mut vec: Vec<usize> = Vec::new();
    while vec.len() < nv
        invariant
            vec@.len() <= nv,
            forall|v: int| 0 <= v < vec@.len() ==> vec@[v] == 0,
        decreases nv - vec.len(),
    {
        vec.push(0);
    }
    let mut cvl: Vec<usize> = Vec::new();
    let mut digits: Vec<u8> = Vec::new();
    while cvl.len() < ls
        invariant
            cvl@.len() <= ls,
            digits@.len() == cvl@.len(),
            forall|x: int| 0 <= x < digits@.len() ==> digits@[x] == 0,
        decreases ls - cvl.len(),
    {
        cvl.push(0);
        digits.push(0);
    }
    let mut is0: usize = 0;
    let mut is1: usize = ls;
    let mut i: usize = 0;
    let mut v = v0;
    let ghost mut fuel: nat = (ls + 1) as nat;
    let ghost target = debruijn_k_digits(k as nat, n as nat, v0 as nat);
    proof {
        assert(vec@ =~= Seq::new(nv as nat, |x: int| 0usize));
        assert(digits@ =~= Seq::new(ls as nat, |x: int| 0u8));
    }
    while i < ls
        invariant
            debruijn_k_error(k as nat, n as nat, v0 as nat) is None,
            2 <= n <= 8,
            ls == pow(k as int, n as nat),
            nv == pow(k as int, (n - 1) as nat),
            2 <= k <= 10,
            1 <= nv <= 10_000_000,
            ls == k * nv,
            2 <= ls <= 100_000_000,
            v < nv,
            vec@.len() == nv,
            cvl@.len() == ls,
            digits@.len() == ls,
            is0 <= ls,
            is1 <= ls,
            i <= ls,
            fuel >= ls - i + 1,
            forall|x: int| 0 <= x < nv ==> vec@[x] <= nv,
            forall|x: int| 0 <= x < ls ==> (#[trigger] digits@[x] as int) < k,
            target == debruijn_k_digits(k as nat, n as nat, v0 as nat),
            target == db_run(k as int, nv as int, ls as int,
                (vec@, digits@, is0 as int, is1 as int, i as int, v as int), fuel),
        decreases ls - i,
    {
        let ghost st = (vec@, digits@, is0 as int, is1 as int, i as int, v as int);
        let ghost step = db_step(k as int, nv as int, ls as int, st);
        assert(target == match step {
            None => None,
            Some(s2) => db_run(k as int, nv as int, ls as int, s2, (fuel - 1) as nat),
        });
        let ghost walk = db_walk(v as int, k as int, nv as int, vec@, seq![v], (ls - 1) as nat);
        let clen = match debruijn_cycle(v, k, nv, &mut vec, &mut cvl) {
            Some(c) => c,
            None => {
                assert(walk is None);
                return Err(walk_error());
            },
        };
        let ghost c2 = walk->Some_0.0;
        let ghost path = walk->Some_0.1;
        assert(walk is Some);
        assert(vec@ == c2);
        assert(cvl@.take(path.len() as int) == path);
        assert(clen == path.len() - 1);
        assert forall|x: int| 0 <= x <= clen implies #[trigger] cvl@[x] == path[x] by {
            assert(cvl@.take(path.len() as int)[x] == cvl@[x]);
        }
        let mut clen0 = clen;
        let mut clen1: usize = 0;
        let v_before = v;
        i = if clen < ls - i { i + clen } else { ls };
        let mut j: usize = 1;
        while j < clen
            invariant_except_break
                clen0 == clen,
                clen1 == 0,
                v == v_before,
                first_free(c2, path, k as int, 1, clen as nat) == first_free(c2, path, k as int, j as nat, clen as nat),
            invariant
                1 <= j <= clen < ls,
                clen0 <= clen,
                clen0 + clen1 == clen,
                clen0 >= 1,
                v < nv,
                vec@ == c2,
                vec@.len() == nv,
                cvl@.len() == ls,
                forall|x: int| 0 <= x <= clen ==> cvl@[x] < nv,
                forall|x: int| 0 <= x <= clen ==> #[trigger] cvl@[x] == path[x],
            ensures
                clen0 == (if first_free(c2, path, k as int, 1, clen as nat) < clen { first_free(c2, path, k as int, 1, clen as nat) as int } else { clen as int }),
                clen1 == clen - clen0,
                v == (if first_free(c2, path, k as int, 1, clen as nat) < clen { path[first_free(c2, path, k as int, 1, clen as nat) as int] as int } else { v_before as int }),
                clen0 >= 1,
                clen0 + clen1 == clen,
                v < nv,
            decreases clen - j,
        {
            if vec[cvl[j]] < k {
                v = cvl[j];
                clen1 = clen - j;
                clen0 = j;
                break;
            }
            j += 1;
        }
        if clen0 > ls - is0 {
            return Err(walk_error());
        }
        let ghost d0 = digits@;
        assert(!edges_ok(path, 0, clen0 as int, k as int, nv as int) ==> target is None);
        let mut j: usize = 0;
        while j < clen0
            invariant
                debruijn_k_error(k as nat, n as nat, v0 as nat) is None,
                2 <= n <= 8,
                !edges_ok(path, 0, clen0 as int, k as int, nv as int) ==> target is None,
                target == debruijn_k_digits(k as nat, n as nat, v0 as nat),
                2 <= k <= 10,
                1 <= nv <= 10_000_000,
                j <= clen0 <= clen < ls,
                is0 + clen0 <= ls,
                digits@.len() == ls,
                cvl@.len() == ls,
                forall|x: int| 0 <= x <= clen ==> cvl@[x] < nv,
                forall|x: int| 0 <= x <= clen ==> #[trigger] cvl@[x] == path[x],
                forall|x: int| 0 <= x < ls ==> (#[trigger] digits@[x] as int) < k,
                edges_ok(path, 0, j as int, k as int, nv as int),
                digits@ == write_edges(d0, is0 as int, path, 0, j as int, k as int, nv as int),
            decreases clen0 - j,
        {
            let a = cvl[j + 1];
            assert(k * cvl[j as int] < 100_000_000) by (nonlinear_arith)
                requires k <= 10, cvl@[j as int] < 10_000_000;
            let b = (k * cvl[j]) % nv;
            if a < b {
                assert(!edges_ok(path, 0, clen0 as int, k as int, nv as int)) by {
                    assert(path[j + 1] == a && path[j as int] == cvl@[j as int]);
                }
                return Err(walk_error());
            }
            digits.set(is0 + j, ((a - b) % k) as u8);
            j += 1;
            assert(digits@ =~= write_edges(d0, is0 as int, path, 0, j as int, k as int, nv as int));
        }
        let ghost d1 = digits@;
        is0 += clen0;
        if clen1 > is1 {
            return Err(walk_error());
        }
        is1 -= clen1;
        assert(!edges_ok(path, clen0 as int, clen1 as int, k as int, nv as int) ==> target is None);
        let mut j: usize = 0;
        while j < clen1
            invariant
                debruijn_k_error(k as nat, n as nat, v0 as nat) is None,
                2 <= n <= 8,
                !edges_ok(path, clen0 as int, clen1 as int, k as int, nv as int) ==> target is None,
                target == debruijn_k_digits(k as nat, n as nat, v0 as nat),
                2 <= k <= 10,
                1 <= nv <= 10_000_000,
                j <= clen1,
                clen0 + clen1 <= clen < ls,
                is1 + clen1 <= ls,
                digits@.len() == ls,
                cvl@.len() == ls,
                forall|x: int| 0 <= x <= clen ==> cvl@[x] < nv,
                forall|x: int| 0 <= x <= clen ==> #[trigger] cvl@[x] == path[x],
                forall|x: int| 0 <= x < ls ==> (#[trigger] digits@[x] as int) < k,
                edges_ok(path, clen0 as int, j as int, k as int, nv as int),
                digits@ == write_edges(d1, is1 as int, path, clen0 as int, j as int, k as int, nv as int),
            decreases clen1 - j,
        {
            let a = cvl[clen0 + j + 1];
            assert(k * cvl[clen0 + j] < 100_000_000) by (nonlinear_arith)
                requires k <= 10, cvl@[clen0 + j] < 10_000_000;
            let b = (k * cvl[clen0 + j]) % nv;
            if a < b {
                assert(!edges_ok(path, clen0 as int, clen1 as int, k as int, nv as int)) by {
                    assert(path[clen0 + j + 1] == a && path[clen0 + j] == cvl@[clen0 + j]);
                }
                return Err(walk_error());
            }
            digits.set(is1 + j, ((a - b) % k) as u8);
            j += 1;
            assert(digits@ =~= write_edges(d1, is1 as int, path, clen0 as int, j as int, k as int, nv as int));
        }
        proof {
            assert(step == Some((vec@, digits@, is0 as int, is1 as int, i as int, v as int)));
            fuel = (fuel - 1) as nat;
        }
    }
    assert(target == Some(digits@));
    let out = text_of_digits(&digits);
    proof {
        assert forall|i: int| 0 <= i < out@.len() implies '0' <= #[trigger] out@[i] && (out@[i] as int) < '0' as int + k by {
            assert(digits@[i] < k);
            assert(out@[i] == crate::text::digit_char(digits@[i] as nat));
        }
    }
    Ok(out)
}

/// The text of digits below 10.
fn text_of_digits(digits: &Vec<u8>) -> (out: String)
    requires
        forall|y: int| 0 <= y < digits@.len() ==> #[trigger] digits@[y] < 10,
    ensures
        out@ == digit_text(digits@),
{
    let mut out = String::new();
    let mut x: usize = 0;
    while x < digits.len()
        invariant
            x <= digits@.len(),
            forall|y: int| 0 <= y < digits@.len() ==> #[trigger] digits@[y] < 10,
            out@ == digit_text(digits@).take(x as int),
        decreases digits.len() - x,
    {
        let c = digit_char_of(digits[x]);
        out.push(c);
        x += 1;
        assert(out@ =~= digit_text(digits@).take(x as int));
    }
    assert(digit_text(digits@).take(digits@.len() as int) =~= digit_text(digits@));
    out
}

/// The digits `0..k` in order: the de Bruijn sequence of order 1.
fn digits_in_order(k: usize) -> (out: String)
    requires
        2 <= k <= 10,
    ensures
        out@.len() == pow(k as int, 1),
        forall|i: int| 0 <= i < out@.len() ==> '0' <= #[trigger] out@[i] && (out@[i] as int) < '0' as int + k,
        is_de_bruijn(out@, k as nat, 1),
{
    let mut digits: Vec<u8> = Vec::new();
    let mut j: usize = 0;
    while j < k
        invariant
            j <= k <= 10,
            digits@ == Seq::new(j as nat, |i: int| i as u8),
        decreases k - j,
    {
        digits.push(j as u8);
        j += 1;
        assert(digits@ =~= Seq::new(j as nat, |i: int| i as u8));
    }
    let out = text_of_digits(&digits);
    proof {
        reveal(pow);
        assert(pow(k as int, 1) == k * pow(k as int, 0));
        let s = out@;
        assert forall|i: int| 0 <= i < s.len() implies '0' <= #[trigger] s[i] && (s[i] as int) < '0' as int + k by {
            assert(s[i] == crate::text::digit_char(i as nat));
        }
        assert forall|w: Seq<char>| #[trigger] is_digit_word(w, k as nat, 1) implies exists|a: int| {
            &&& 0 <= a < s.len()
            &&& cyclic_window(s, 1, a) == w
            &&& forall|i2: int| 0 <= i2 < s.len() && cyclic_window(s, 1, i2) == w ==> i2 == a
        } by {
            let a = w[0] as int - '0' as int;
            assert(0 <= a < k);
            assert(s.len() == k);
            vstd::arithmetic::div_mod::lemma_small_mod(a as nat, k as nat);
            assert(s[a] == crate::text::digit_char(a as nat));
            assert(s[a] as int == '0' as int + a);
            assert(s[a] == w[0]);
            assert(cyclic_window(s, 1, a) =~= w);
            assert forall|i2: int| 0 <= i2 < s.len() && cyclic_window(s, 1, i2) == w implies i2 == a by {
                vstd::arithmetic::div_mod::lemma_small_mod(i2 as nat, k as nat);
                assert(cyclic_window(s, 1, i2)[0] == s[i2]);
                assert(s[i2] == crate::text::digit_char(i2 as nat));
                assert(s[i2] as int == '0' as int + i2);
            }
        }
    }
    out
}

/// The character of a digit below 10.
fn digit_char_of(d: u8) -> (c: char)
    requires
        d < 10,
    ensures
        c as int == '0' as int + d,
        c == crate::text::digit_char(d as nat),
{
    crate::text::digit_of(d as u64)
}

} // verus!
