use vstd::prelude::*;

verus! {

/// The unsigned big-endian number that the bytes `s` denote.
pub open spec fn be_value(s: Seq<u8>) -> int
    decreases s.len(),
{
    if s.len() == 0 {
        0
    } else {
        be_value(s.drop_last()) * 256 + s.last()
    }
}

pub open spec fn pow256(n: nat) -> int
    decreases n,
{
    if n == 0 {
        1
    } else {
        256 * pow256((n - 1) as nat)
    }
}

/// `v` reduced to `bits` bits and read as a two's-complement number.
pub open spec fn wrap_signed(v: int, bits: nat) -> int {
    let m = v % pow256(bits / 8);
    if m >= pow256(bits / 8) / 2 {
        m - pow256(bits / 8)
    } else {
        m
    }
}

/// The bytes `s` read as a two's-complement big-endian number.
pub open spec fn be_signed(s: Seq<u8>) -> int {
    if s.len() > 0 && s[0] >= 128 {
        be_value(s) - pow256(s.len())
    } else {
        be_value(s)
    }
}

pub proof fn lemma_be_value_bound(s: Seq<u8>)
    ensures
        0 <= be_value(s) < pow256(s.len()),
    decreases s.len(),
{
    if s.len() > 0 {
        lemma_be_value_bound(s.drop_last());
        let p = pow256((s.len() - 1) as nat);
        assert(be_value(s.drop_last()) * 256 + s.last() < p * 256) by (nonlinear_arith)
            requires
                be_value(s.drop_last()) < p,
                s.last() < 256,
        ;
    }
}

/// The first byte of `s` tells whether the number it begins is negative.
pub proof fn lemma_be_value_top(s: Seq<u8>)
    requires
        s.len() > 0,
    ensures
        (s[0] >= 128) == (be_value(s) >= pow256(s.len()) / 2),
    decreases s.len(),
{
    reveal_with_fuel(pow256, 2);
    if s.len() == 1 {
        assert(s.drop_last() =~= Seq::<u8>::empty());
        assert(be_value(s.drop_last()) == 0);
        assert(be_value(s) == s[0]);
    } else {
        let t = s.drop_last();
        lemma_be_value_top(t);
        lemma_be_value_bound(t);
        assert(t[0] == s[0]);
        let p = pow256(t.len());
        assert(pow256(s.len()) == 256 * p);
        assert(be_value(s) == be_value(t) * 256 + s.last());
        assert(p >= 256) by {
            lemma_pow256_grows(t.len());
        }
        assert((be_value(t) >= p / 2) == (be_value(t) * 256 + s.last() >= 256 * p / 2)) by (nonlinear_arith)
            requires
                0 <= s.last() < 256,
                p >= 2,
                p % 2 == 0,
        {
        }
    }
}

proof fn lemma_pow256_grows(n: nat)
    requires
        n >= 1,
    ensures
        pow256(n) >= 256,
        pow256(n) % 2 == 0,
    decreases n,
{
    if n > 1 {
        lemma_pow256_grows((n - 1) as nat);
    }
    reveal_with_fuel(pow256, 2);
}

/// `s[from..to]`, at most eight bytes, read as an unsigned big-endian number.
pub fn read_be(s: &[u8], from: usize, to: usize) -> (r: u64)
    requires
        from <= to <= s@.len(),
        to - from <= 8,
    ensures
        r as int == be_value(s@.subrange(from as int, to as int)),
{
    let mut acc: u64 = 0;
    let mut i = from;
    assert(s@.subrange(from as int, from as int) =~= Seq::<u8>::empty());
    while i < to
        invariant
            from <= i <= to <= s@.len(),
            to - from <= 8,
            acc as int == be_value(s@.subrange(from as int, i as int)),
        decreases to - i,
    {
        proof {
            lemma_be_value_bound(s@.subrange(from as int, i as int));
            reveal_with_fuel(pow256, 8);
            lemma_pow256_mono((i - from) as nat, 7);
            assert(s@.subrange(from as int, i + 1).drop_last() =~= s@.subrange(from as int, i as int));
        }
        acc = acc * 256 + s[i] as u64;
        i = i + 1;
    }
    acc
}

proof fn lemma_pow256_mono(a: nat, b: nat)
    requires
        a <= b,
    ensures
        pow256(a) <= pow256(b),
    decreases b,
{
    if a < b {
        lemma_pow256_mono(a, (b - 1) as nat);
        assert(pow256((b - 1) as nat) >= 1) by {
            lemma_pow256_pos((b - 1) as nat);
        }
    }
}

proof fn lemma_pow256_pos(n: nat)
    ensures
        pow256(n) >= 1,
    decreases n,
{
    if n > 0 {
        lemma_pow256_pos((n - 1) as nat);
    }
}

/// `s[from..to]`, one to eight bytes, read as a two's-complement big-endian
/// number.
pub fn read_be_signed(s: &[u8], from: usize, to: usize) -> (r: i64)
    requires
        from < to <= s@.len(),
        to - from <= 8,
    ensures
        r as int == be_signed(s@.subrange(from as int, to as int)),
{
    let u = read_be(s, from, to);
    let ghost t = s@.subrange(from as int, to as int);
    proof {
        lemma_be_value_bound(t);
        lemma_be_value_top(t);
        reveal_with_fuel(pow256, 9);
        lemma_pow256_mono(t.len(), 8);
        lemma_pow256_grows(t.len());
    }
    let n = to - from;
    if s[from] >= 128 {
        if n == 8 {
            let d: u64 = (u64::MAX - u) + 1;
            if d == 9223372036854775808 {
                i64::MIN
            } else {
                -(d as i64)
            }
        } else {
            let d: u64 = pow256_u64(n) - u;
            -(d as i64)
        }
    } else {
        u as i64
    }
}

fn pow256_u64(n: usize) -> (r: u64)
    requires
        n <= 7,
    ensures
        r as int == pow256(n as nat),
{
    proof {
        reveal_with_fuel(pow256, 8);
    }
    match n {
        0 => 1,
        1 => 256,
        2 => 65536,
        3 => 16777216,
        4 => 4294967296,
        5 => 1099511627776,
        6 => 281474976710656,
        _ => 72057594037927936,
    }
}

/// A cell of a frame: its bytes, or `None` for a null value.
pub type Cell = Option<Vec<u8>>;

pub open spec fn cell_view(c: Cell) -> Option<Seq<u8>> {
    match c {
        Some(v) => Some(v@),
        None => None,
    }
}

pub open spec fn cells_view(cs: Seq<Cell>) -> Seq<Option<Seq<u8>>> {
    cs.map_values(|c: Cell| cell_view(c))
}

/// The four-byte signed length or count at `pos`.
pub open spec fn int_at(b: Seq<u8>, pos: int) -> Option<int> {
    if 0 <= pos && pos + 4 <= b.len() {
        Some(be_signed(b.subrange(pos, pos + 4)))
    } else {
        None
    }
}

/// The cell at `pos`: a length, then as many bytes, a negative length
/// standing for null; and the position after it.
pub open spec fn cell_at(b: Seq<u8>, pos: int) -> Option<(Option<Seq<u8>>, int)> {
    match int_at(b, pos) {
        None => None,
        Some(n) => if n < 0 {
            Some((None, pos + 4))
        } else if pos + 4 + n <= b.len() {
            Some((Some(b.subrange(pos + 4, pos + 4 + n)), pos + 4 + n))
        } else {
            None
        },
    }
}

/// `count` cells one after the other from `pos`.
pub open spec fn cells_at(b: Seq<u8>, pos: int, count: nat) -> Option<Seq<Option<Seq<u8>>>>
    decreases count,
{
    if count == 0 {
        Some(Seq::empty())
    } else {
        match cell_at(b, pos) {
            None => None,
            Some((c, next)) => match cells_at(b, next, (count - 1) as nat) {
                None => None,
                Some(rest) => Some(seq![c].add(rest)),
            },
        }
    }
}

/// `count` cells from `pos`; from the first that is cut short on, all are
/// null.
pub open spec fn cells_or_null_at(b: Seq<u8>, pos: int, count: nat) -> Seq<Option<Seq<u8>>>
    decreases count,
{
    if count == 0 {
        Seq::empty()
    } else {
        match cell_at(b, pos) {
            None => Seq::new(count, |i: int| None::<Seq<u8>>),
            Some((c, next)) => seq![c].add(cells_or_null_at(b, next, (count - 1) as nat)),
        }
    }
}

/// The elements of a list or set: a count, then as many cells.
pub open spec fn list_cells(b: Seq<u8>) -> Option<Seq<Option<Seq<u8>>>> {
    match int_at(b, 0) {
        Some(n) => if n >= 0 {
            cells_at(b, 4, n as nat)
        } else {
            None
        },
        None => None,
    }
}

/// The entries of a map: a count, then a key cell and a value cell for each.
pub open spec fn map_cells(b: Seq<u8>) -> Option<Seq<Option<Seq<u8>>>> {
    match int_at(b, 0) {
        Some(n) => if n >= 0 {
            cells_at(b, 4, (2 * n) as nat)
        } else {
            None
        },
        None => None,
    }
}

/// A copy of `b[from..to]`.
pub fn copy_range(b: &[u8], from: usize, to: usize) -> (r: Vec<u8>)
    requires
        from <= to <= b@.len(),
    ensures
        r@ == b@.subrange(from as int, to as int),
{
    let mut out: Vec<u8> = Vec::new();
    let mut i = from;
    while i < to
        invariant
            from <= i <= to <= b@.len(),
            out@ == b@.subrange(from as int, i as int),
        decreases to - i,
    {
        out.push(b[i]);
        assert(out@ =~= b@.subrange(from as int, i + 1));
        i = i + 1;
    }
    out
}

/// Reads the four-byte signed number at `pos`.
pub fn read_int_at(b: &[u8], pos: usize) -> (r: Option<i32>)
    ensures
        r matches Some(n) ==> int_at(b@, pos as int) == Some(n as int) && pos + 4 <= b@.len(),
        r is None ==> int_at(b@, pos as int) is None,
{
    if pos > b.len() || b.len() - pos < 4 {
        return None;
    }
    let v = read_be_signed(b, pos, pos + 4);
    proof {
        let t = b@.subrange(pos as int, pos + 4);
        lemma_be_value_bound(t);
        lemma_be_value_top(t);
        reveal_with_fuel(pow256, 5);
    }
    Some(v as i32)
}

/// Reads the cell at `pos` and the position after it.
pub fn read_cell(b: &[u8], pos: usize) -> (r: Option<(Cell, usize)>)
    ensures
        r matches Some((c, next)) ==> cell_at(b@, pos as int) == Some((cell_view(c), next as int)),
        r is None ==> cell_at(b@, pos as int) is None,
{
    let len = b.len();
    let n = match read_int_at(b, pos) {
        Some(n) => n,
        None => {
            return None;
        },
    };
    if n < 0 {
        return Some((None, pos + 4));
    }
    let start = pos + 4;
    if n as usize > len - start {
        return None;
    }
    let end = start + n as usize;
    Some((Some(copy_range(b, start, end)), end))
}

/// Reads `count` cells from `pos`, the ones past the end of `b` null.
pub fn read_cells_or_null(b: &[u8], pos: usize, count: usize) -> (r: Vec<Cell>)
    ensures
        cells_view(r@) == cells_or_null_at(b@, pos as int, count as nat),
{
    let mut out: Vec<Cell> = Vec::new();
    let mut at = pos;
    let mut k: usize = 0;
    let mut cut = false;
    assert(cells_view(out@) =~= Seq::<Option<Seq<u8>>>::empty());
    while k < count
        invariant
            0 <= k <= count,
            !cut ==> cells_or_null_at(b@, pos as int, count as nat) == cells_view(out@)
                + cells_or_null_at(b@, at as int, (count - k) as nat),
            cut ==> cells_or_null_at(b@, pos as int, count as nat) == cells_view(out@) + Seq::new(
                (count - k) as nat,
                |i: int| None::<Seq<u8>>,
            ),
        decreases count - k,
    {
        let ghost before = cells_view(out@);
        if cut {
            out.push(None);
            assert(before + Seq::new((count - k) as nat, |i: int| None::<Seq<u8>>) =~= cells_view(out@)
                + Seq::new((count - k - 1) as nat, |i: int| None::<Seq<u8>>));
        } else {
            match read_cell(b, at) {
                None => {
                    cut = true;
                    out.push(None);
                    assert(before + Seq::new((count - k) as nat, |i: int| None::<Seq<u8>>)
                        =~= cells_view(out@) + Seq::new(
                        (count - k - 1) as nat,
                        |i: int| None::<Seq<u8>>,
                    ));
                },
                Some((c, next)) => {
                    out.push(c);
                    assert(before + seq![cell_view(c)].add(
                        cells_or_null_at(b@, next as int, (count - k - 1) as nat),
                    ) =~= cells_view(out@) + cells_or_null_at(
                        b@,
                        next as int,
                        (count - k - 1) as nat,
                    ));
                    at = next;
                },
            }
        }
        k = k + 1;
    }
    assert(cells_view(out@) + Seq::new(0, |i: int| None::<Seq<u8>>) =~= cells_view(out@));
    assert(cells_view(out@) + Seq::<Option<Seq<u8>>>::empty() =~= cells_view(out@));
    out
}

/// Cells one after the other take four bytes each at least.
proof fn lemma_cells_at_bound(b: Seq<u8>, pos: int, count: nat)
    requires
        0 <= pos,
        cells_at(b, pos, count) is Some,
    ensures
        count > 0 ==> pos + 4 * count <= b.len(),
    decreases count,
{
    if count > 0 {
        let (c, next) = cell_at(b, pos).unwrap();
        lemma_cells_at_bound(b, next, (count - 1) as nat);
    }
}

/// Key and value cells, one after the other.
pub open spec fn pairs_view(ps: Seq<(Cell, Cell)>) -> Seq<Option<Seq<u8>>>
    decreases ps.len(),
{
    if ps.len() == 0 {
        Seq::empty()
    } else {
        pairs_view(ps.drop_last()).push(cell_view(ps.last().0)).push(cell_view(ps.last().1))
    }
}

/// Relies on cdrs's `decode_list`: a four-byte count, then as many cells, each
/// a four-byte length and as many bytes, a negative length standing for null.
/// It reserves room for the count before reading, hence the bound.
#[verifier::external_body]
fn cdrs_decode_list(b: &[u8]) -> (r: Option<Vec<Cell>>)
    requires
        int_at(b@, 0) matches Some(n) && 0 <= n && 4 + 4 * n <= b@.len(),
    ensures
        r matches Some(cs) ==> list_cells(b@) == Some(cells_view(cs@)),
        r is None ==> list_cells(b@) is None,
{
    let cells = cdrs::types::data_serialization_types::decode_list(b).ok()?;
    Some(cells.into_iter().map(|c| c.into_plain()).collect())
}

/// Relies on cdrs's `decode_map`: a four-byte count, then as many pairs of a
/// key cell and a value cell. It reserves room for the count before reading,
/// hence the bound.
#[verifier::external_body]
fn cdrs_decode_map(b: &[u8]) -> (r: Option<Vec<(Cell, Cell)>>)
    requires
        int_at(b@, 0) matches Some(n) && 0 <= n && 4 + 8 * n <= b@.len(),
    ensures
        r matches Some(ps) ==> map_cells(b@) == Some(pairs_view(ps@)),
        r is None ==> map_cells(b@) is None,
{
    let pairs = cdrs::types::data_serialization_types::decode_map(b).ok()?;
    Some(pairs.into_iter().map(|(k, v)| (k.into_plain(), v.into_plain())).collect())
}

/// Relies on cdrs's `decode_tuple`: `count` cells one after the other from the
/// start of `b`.
#[verifier::external_body]
fn cdrs_decode_tuple(b: &[u8], count: usize) -> (r: Option<Vec<Cell>>)
    ensures
        r matches Some(cs) ==> cells_at(b@, 0, count as nat) == Some(cells_view(cs@)),
        r is None ==> cells_at(b@, 0, count as nat) is None,
{
    let cells = cdrs::types::data_serialization_types::decode_tuple(b, count).ok()?;
    Some(cells.into_iter().map(|c| c.into_plain()).collect())
}

/// The elements of a list or set.
pub fn read_list(b: &[u8]) -> (r: Option<Vec<Cell>>)
    ensures
        r matches Some(cs) ==> list_cells(b@) == Some(cells_view(cs@)),
        r is None ==> list_cells(b@) is None,
{
    let len = b.len();
    let n = read_int_at(b, 0)?;
    if n < 0 {
        return None;
    }
    if n as usize > (len - 4) / 4 {
        proof {
            if cells_at(b@, 4, n as nat) is Some {
                lemma_cells_at_bound(b@, 4, n as nat);
            }
        }
        return None;
    }
    cdrs_decode_list(b)
}

/// The key and value cells of a map, one after the other.
pub fn read_map(b: &[u8]) -> (r: Option<Vec<Cell>>)
    ensures
        r matches Some(cs) ==> map_cells(b@) == Some(cells_view(cs@)),
        r is None ==> map_cells(b@) is None,
{
    let len = b.len();
    let n = read_int_at(b, 0)?;
    if n < 0 {
        return None;
    }
    if n as usize > (len - 4) / 8 {
        proof {
            if cells_at(b@, 4, (2 * n) as nat) is Some {
                lemma_cells_at_bound(b@, 4, (2 * n) as nat);
            }
        }
        return None;
    }
    let pairs = cdrs_decode_map(b)?;
    let mut out: Vec<Cell> = Vec::new();
    let mut i: usize = 0;
    assert(cells_view(out@) =~= pairs_view(pairs@.subrange(0, 0)));
    while i < pairs.len()
        invariant
            0 <= i <= pairs@.len(),
            cells_view(out@) == pairs_view(pairs@.subrange(0, i as int)),
        decreases pairs@.len() - i,
    {
        let (k, v) = &pairs[i];
        let ghost before = cells_view(out@);
        out.push(k.clone());
        out.push(v.clone());
        assert(pairs@.subrange(0, i + 1).drop_last() =~= pairs@.subrange(0, i as int));
        assert(cells_view(out@) =~= before.push(cell_view(pairs@[i as int].0)).push(
            cell_view(pairs@[i as int].1),
        ));
        i = i + 1;
    }
    assert(pairs@.subrange(0, i as int) =~= pairs@);
    Some(out)
}

/// `count` cells one after the other from the start of `b`.
pub fn read_tuple(b: &[u8], count: usize) -> (r: Option<Vec<Cell>>)
    ensures
        r matches Some(cs) ==> cells_at(b@, 0, count as nat) == Some(cells_view(cs@)),
        r is None ==> cells_at(b@, 0, count as nat) is None,
{
    cdrs_decode_tuple(b, count)
}

/// The four bytes of a length or count `0 <= n < 2^31`.
pub open spec fn int_bytes(n: int) -> Seq<u8> {
    let a = n / 256;
    let b = a / 256;
    let c = b / 256;
    seq![c as u8, (b % 256) as u8, (a % 256) as u8, (n % 256) as u8]
}

/// A cell as it stands in a frame: its length and its bytes, or a negative
/// length for null.
pub open spec fn cell_bytes(c: Option<Seq<u8>>) -> Seq<u8> {
    match c {
        Some(b) => int_bytes(b.len() as int) + b,
        None => seq![255u8, 255u8, 255u8, 255u8],
    }
}

/// Cells one after the other.
pub open spec fn cells_bytes(cs: Seq<Option<Seq<u8>>>) -> Seq<u8>
    decreases cs.len(),
{
    if cs.len() == 0 {
        Seq::empty()
    } else {
        cell_bytes(cs[0]) + cells_bytes(cs.drop_first())
    }
}

/// A list or set as it stands in a frame: a count, then the cells.
pub open spec fn list_bytes(cs: Seq<Option<Seq<u8>>>) -> Seq<u8> {
    int_bytes(cs.len() as int) + cells_bytes(cs)
}

/// Each cell is short enough for its length to be written.
pub open spec fn cells_fit(cs: Seq<Option<Seq<u8>>>) -> bool {
    forall|i: int| 0 <= i < cs.len() ==> (#[trigger] cs[i] matches Some(b) ==> b.len() < 0x8000_0000)
}

proof fn lemma_int_bytes(pre: Seq<u8>, n: int, rest: Seq<u8>)
    requires
        0 <= n < 0x8000_0000,
    ensures
        int_at(pre + int_bytes(n) + rest, pre.len() as int) == Some(n),
{
    let s = int_bytes(n);
    let all = pre + s + rest;
    let p = pre.len() as int;
    assert(all.subrange(p, p + 4) =~= s);
    let a = n / 256;
    let b = a / 256;
    let c = b / 256;
    vstd::arithmetic::div_mod::lemma_fundamental_div_mod(n, 256);
    vstd::arithmetic::div_mod::lemma_fundamental_div_mod(a, 256);
    vstd::arithmetic::div_mod::lemma_fundamental_div_mod(b, 256);
    assert(c < 128);
    assert(s.drop_last().drop_last().drop_last().drop_last() =~= Seq::<u8>::empty());
    assert(s.drop_last().drop_last().drop_last() =~= seq![c as u8]);
    assert(s.drop_last().drop_last() =~= seq![c as u8, (b % 256) as u8]);
    assert(s.drop_last() =~= seq![c as u8, (b % 256) as u8, (a % 256) as u8]);
    reveal_with_fuel(be_value, 5);
    assert(be_value(s) == ((c * 256 + b % 256) * 256 + a % 256) * 256 + n % 256);
}

proof fn lemma_cell_at(pre: Seq<u8>, c: Option<Seq<u8>>, rest: Seq<u8>)
    requires
        c matches Some(b) ==> b.len() < 0x8000_0000,
    ensures
        cell_at(pre + cell_bytes(c) + rest, pre.len() as int) == Some(
            (c, (pre.len() + cell_bytes(c).len()) as int),
        ),
{
    let all = pre + cell_bytes(c) + rest;
    let p = pre.len() as int;
    match c {
        Some(b) => {
            assert(pre + cell_bytes(c) + rest =~= pre + int_bytes(b.len() as int) + (b + rest));
            lemma_int_bytes(pre, b.len() as int, b + rest);
            assert(all.subrange(p + 4, p + 4 + b.len()) =~= b);
        },
        None => {
            let s = seq![255u8, 255u8, 255u8, 255u8];
            assert(all.subrange(p, p + 4) =~= s);
            assert(s.drop_last().drop_last().drop_last().drop_last() =~= Seq::<u8>::empty());
            assert(s.drop_last().drop_last().drop_last() =~= seq![255u8]);
            assert(s.drop_last().drop_last() =~= seq![255u8, 255u8]);
            assert(s.drop_last() =~= seq![255u8, 255u8, 255u8]);
            reveal_with_fuel(be_value, 5);
            reveal_with_fuel(pow256, 5);
            assert(be_value(s) == 4294967295);
        },
    }
}

proof fn lemma_cells_at(pre: Seq<u8>, cs: Seq<Option<Seq<u8>>>, rest: Seq<u8>)
    requires
        cells_fit(cs),
    ensures
        cells_at(pre + cells_bytes(cs) + rest, pre.len() as int, cs.len()) == Some(cs),
        cells_or_null_at(pre + cells_bytes(cs) + rest, pre.len() as int, cs.len()) == cs,
    decreases cs.len(),
{
    if cs.len() > 0 {
        let head = cell_bytes(cs[0]);
        let tail = cs.drop_first();
        assert(cells_fit(tail)) by {
            assert forall|i: int| 0 <= i < tail.len() implies (#[trigger] tail[i] matches Some(b)
                ==> b.len() < 0x8000_0000) by {
                assert(tail[i] == cs[i + 1]);
            }
        }
        assert(pre + cells_bytes(cs) + rest =~= pre + head + (cells_bytes(tail) + rest));
        lemma_cell_at(pre, cs[0], cells_bytes(tail) + rest);
        assert(pre + cells_bytes(cs) + rest =~= (pre + head) + cells_bytes(tail) + rest);
        lemma_cells_at(pre + head, tail, rest);
        assert(seq![cs[0]].add(tail) =~= cs);
    } else {
        assert(cs =~= Seq::<Option<Seq<u8>>>::empty());
    }
}

/// Writing cells into a frame and reading them back gives the same cells,
/// whether they are read as the elements of a list or as the fields of a
/// user-defined value.
pub proof fn lemma_frame_round_trip(cs: Seq<Option<Seq<u8>>>)
    requires
        cells_fit(cs),
        cs.len() < 0x8000_0000,
    ensures
        list_cells(list_bytes(cs)) == Some(cs),
        cells_or_null_at(cells_bytes(cs), 0, cs.len()) == cs,
{
    let e = Seq::<u8>::empty();
    lemma_int_bytes(e, cs.len() as int, cells_bytes(cs));
    assert(e + int_bytes(cs.len() as int) + cells_bytes(cs) =~= list_bytes(cs));
    lemma_cells_at(int_bytes(cs.len() as int), cs, e);
    assert(int_bytes(cs.len() as int) + cells_bytes(cs) + e =~= list_bytes(cs));
    lemma_cells_at(e, cs, e);
    assert(e + cells_bytes(cs) + e =~= cells_bytes(cs));
}

} // verus!
