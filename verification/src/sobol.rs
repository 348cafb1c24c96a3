//! Sobol' low-discrepancy sequence generator.
//!
//! Points are built from Joe-Kuo direction numbers by the Antonov-Saleev Gray code
//! construction, with the origin at index 0. The table of initial values is handed in.

use vstd::arithmetic::power2::pow2;
use vstd::prelude::*;

use crate::convert::of_nat;
use crate::error::{fails, fails_because, Error, ErrorKind, Result};
use crate::float::Float;
use crate::text::{decimal, decimal_text, joined};

verus! {

/// Number of dimensions that are supported.
pub const MAX_DIM: usize = 1024;

/// Largest primitive polynomial degree in the table.
pub const MAX_DEGREE: usize = 13;

/// Number of fixed-point bits behind each coordinate.
pub const BITS: usize = 30;

/// Number of points the sequence holds before it would start repeating.
pub const CAPACITY: u64 = 0x4000_0000;

/// Direction numbers for a single dimension.
pub struct Entry {
    /// Primitive polynomial, with bit `i` set when the term `x^i` is present.
    pub poly: u32,
    /// Degree of the polynomial.
    pub degree: usize,
    /// Initial values `m_1..m_degree`.
    pub m: Vec<u32>,
}

/// Bytes the `i`-th initial value occupies.
pub open spec fn width_of(i: nat) -> nat {
    (i + 7) / 8
}

/// Bytes the `i`-th initial value occupies, which is `ceil(i / 8)` because `m_i < 2^i`.
pub fn m_width(i: usize) -> (r: usize)
    requires
        i <= MAX_DEGREE,
    ensures
        r == width_of(i as nat),
        8 * r >= i,
        8 * (r - 1) < i || i == 0,
{
    (i + 7) / 8
}

/// The little-endian number in `width` bytes.
pub open spec fn field(packed: Seq<u8>, pos: int, width: nat) -> nat
    decreases width,
{
    if width == 0 {
        0
    } else {
        packed[pos] as nat + 256 * field(packed, pos + 1, (width - 1) as nat)
    }
}

/// Where the `i`-th initial value lies behind the degree and the polynomial.
pub open spec fn m_offset(i: nat) -> nat
    decreases i,
{
    if i <= 1 {
        0
    } else {
        m_offset((i - 1) as nat) + width_of((i - 1) as nat)
    }
}

/// Bytes that a dimension of the given degree occupies: one for the degree, four for the
/// polynomial, and those of the initial values.
pub open spec fn entry_width(degree: nat) -> nat {
    5 + m_offset(degree + 1)
}

/// The `i`-th initial value of the dimension that is packed at `pos`.
pub open spec fn packed_m(packed: Seq<u8>, pos: int, i: nat) -> nat {
    field(packed, pos + 5 + m_offset(i) as int, width_of(i))
}

/// A dimension is packed at `pos`: its degree is in range, all of its bytes are there, and
/// every initial value is odd and below `2^i`.
pub open spec fn packed_entry(packed: Seq<u8>, pos: int) -> bool {
    &&& 0 <= pos < packed.len()
    &&& 1 <= packed[pos] <= MAX_DEGREE
    &&& pos + entry_width(packed[pos] as nat) <= packed.len()
    &&& forall|i: nat| 1 <= i <= packed[pos] ==> m_in_range(i, #[trigger] packed_m(packed, pos, i))
}

pub open spec fn m_in_range(i: nat, m: nat) -> bool {
    m % 2 == 1 && m < vstd::arithmetic::power2::pow2(i)
}

/// Where the dimension after `n` others is packed.
pub open spec fn entry_pos(packed: Seq<u8>, n: nat) -> int
    decreases n,
{
    if n == 0 {
        0
    } else {
        let before = entry_pos(packed, (n - 1) as nat);
        before + entry_width(packed[before] as nat)
    }
}

/// The table holds `n` dimensions.
pub open spec fn holds_dims(packed: Seq<u8>, n: nat) -> bool {
    forall|k: nat| k < n ==> packed_entry(packed, #[trigger] entry_pos(packed, k))
}

/// The entry is what is packed at `pos`.
pub open spec fn unpacked(entry: Entry, packed: Seq<u8>, pos: int) -> bool {
    &&& entry.degree == packed[pos]
    &&& entry.poly == field(packed, pos + 1, 4)
    &&& entry.m@.len() == entry.degree
    &&& forall|i: int| 0 <= i < entry.degree ==> #[trigger] entry.m@[i] == packed_m(packed, pos, (i + 1) as nat)
}

/// A usable dimension.
pub open spec fn valid_entry(entry: Entry) -> bool {
    &&& 1 <= entry.degree <= MAX_DEGREE
    &&& entry.m@.len() == entry.degree
    &&& forall|i: int| 0 <= i < entry.degree ==> m_in_range((i + 1) as nat, #[trigger] entry.m@[i] as nat)
}

/// Reads little-endian integers out of the packed table.
pub struct ByteReader {
    pub pos: usize,
}

impl ByteReader {
    pub fn read(&mut self, packed: &[u8], width: usize) -> (r: u32)
        requires
            width <= 4,
            old(self).pos + width <= packed@.len(),
        ensures
            r == field(packed@, old(self).pos as int, width as nat),
            final(self).pos == old(self).pos + width,
    {
        let ghost start = self.pos as int;
        let len: usize = packed.len();
        let mut value: u32 = 0;
        let mut k: usize = 0;
        proof {
            lemma_field_bound(packed@, start, width as nat);
        }
        // From the last byte to the first.
        while k < width
            invariant
                k <= width <= 4,
                start == self.pos,
                start + width <= len,
                len == packed@.len(),
                value == field(packed@, start + (width - k), k as nat),
            decreases width - k,
        {
            proof {
                lemma_field_bound(packed@, start + (width - k), k as nat);
                vstd::arithmetic::power::lemma_pow0(256);
                lemma_pow256();
                if k < 3 {
                    vstd::arithmetic::power::lemma_pow_increases(256, k as nat, 3);
                }
            }
            value = packed[self.pos + (width - k - 1)] as u32 + 256 * value;
            k = k + 1;
        }
        self.pos = self.pos + width;
        value
    }
}

proof fn lemma_pow256()
    ensures
        vstd::arithmetic::power::pow(256, 3) == 0x100_0000,
        vstd::arithmetic::power::pow(256, 4) == 0x1_0000_0000,
{
    reveal(vstd::arithmetic::power::pow);
    reveal_with_fuel(vstd::arithmetic::power::pow, 5);
}

proof fn lemma_field_bound(packed: Seq<u8>, pos: int, width: nat)
    ensures
        field(packed, pos, width) < vstd::arithmetic::power::pow(256, width),
    decreases width,
{
    reveal(vstd::arithmetic::power::pow);
    if width > 0 {
        lemma_field_bound(packed, pos + 1, (width - 1) as nat);
    }
}

/// How many dimensions up to `dim` the table is asked for: all but the first.
pub open spec fn asked_dims(dim: nat) -> nat {
    if dim == 0 {
        0
    } else {
        (dim - 1) as nat
    }
}

/// What decoding the table up to dimension `dim` gives.
pub open spec fn decoded(r: Result<Vec<Entry>>, packed: Seq<u8>, dim: nat) -> bool {
    let n = asked_dims(dim);
    if holds_dims(packed, n) {
        &&& r is Ok
        &&& r->Ok_0@.len() == n
        &&& forall|k: int| 0 <= k < n ==> unpacked(#[trigger] r->Ok_0@[k], packed, entry_pos(packed, k as nat))
            && valid_entry(r->Ok_0@[k])
    } else {
        fails(r, ErrorKind::SamplerError)
    }
}

/// Decodes the direction numbers for dimensions `2..=dim`, in ascending order. Fails where
/// the table does not hold them.
///
/// Dimension 1 is not covered because it uses `m_i = 1` for every `i`.
pub fn decode(packed: &[u8], dim: usize) -> (r: Result<Vec<Entry>>)
    ensures
        decoded(r, packed@, dim as nat),
{
    let n: usize = if dim == 0 {
        0
    } else {
        dim - 1
    };
    let mut reader = ByteReader { pos: 0 };
    let mut entries: Vec<Entry> = Vec::new();
    let mut k: usize = 0;
    while k < n
        invariant
            k <= n,
            n == (if dim == 0 { 0 } else { dim - 1 }),
            entries@.len() == k,
            reader.pos == entry_pos(packed@, k as nat),
            holds_dims(packed@, k as nat),
            forall|j: int| 0 <= j < k ==> unpacked(#[trigger] entries@[j], packed@, entry_pos(packed@, j as nat))
                && valid_entry(entries@[j]),
        decreases n - k,
    {
        match read_entry(packed, &mut reader) {
            None => {
                assert(!packed_entry(packed@, entry_pos(packed@, k as nat)));
                return Err(Error::new(ErrorKind::SamplerError));
            }
            Some(entry) => {
                entries.push(entry);
            }
        }
        k = k + 1;
    }
    Ok(entries)
}

/// A table that can be decoded up to some dimension can be decoded up to every smaller one,
/// and gives the same entries for the dimensions that both ask for.
pub proof fn law_fewer_dimensions_decode_to_a_prefix(packed: Seq<u8>, few: nat, many: nat, a: Result<Vec<Entry>>, b: Result<Vec<Entry>>)
    requires
        few <= many,
        decoded(a, packed, few),
        decoded(b, packed, many),
        b is Ok,
    ensures
        a is Ok,
        a->Ok_0@.len() == asked_dims(few),
        b->Ok_0@.len() == asked_dims(many),
        forall|k: int| 0 <= k < asked_dims(few) ==> {
            &&& (#[trigger] a->Ok_0@[k]).poly == b->Ok_0@[k].poly
            &&& a->Ok_0@[k].degree == b->Ok_0@[k].degree
            &&& a->Ok_0@[k].m@ == b->Ok_0@[k].m@
        },
{
    assert(holds_dims(packed, asked_dims(many)));
    assert(holds_dims(packed, asked_dims(few)));
    assert forall|k: int| 0 <= k < asked_dims(few) implies {
        &&& (#[trigger] a->Ok_0@[k]).poly == b->Ok_0@[k].poly
        &&& a->Ok_0@[k].degree == b->Ok_0@[k].degree
        &&& a->Ok_0@[k].m@ == b->Ok_0@[k].m@
    } by {
        let pos = entry_pos(packed, k as nat);
        assert(unpacked(a->Ok_0@[k], packed, pos) && unpacked(b->Ok_0@[k], packed, pos));
        assert(a->Ok_0@[k].m@ =~= b->Ok_0@[k].m@);
    }
}

proof fn lemma_m_offsets()
    ensures
        m_offset(1) == 0,
        m_offset(2) == 1,
        m_offset(3) == 2,
        m_offset(4) == 3,
        m_offset(5) == 4,
        m_offset(6) == 5,
        m_offset(7) == 6,
        m_offset(8) == 7,
        m_offset(9) == 8,
        m_offset(10) == 10,
        m_offset(11) == 12,
        m_offset(12) == 14,
        m_offset(13) == 16,
        m_offset(14) == 18,
{
    reveal_with_fuel(m_offset, 15);
}

proof fn lemma_m_offset_step(i: nat)
    requires
        i >= 1,
    ensures
        m_offset(i + 1) == m_offset(i) + width_of(i),
        m_offset(i) <= m_offset(i + 1),
{
}

proof fn lemma_m_offset_mono(i: nat, j: nat)
    requires
        i <= j,
    ensures
        m_offset(i) <= m_offset(j),
    decreases j - i,
{
    if i < j {
        lemma_m_offset_mono(i, (j - 1) as nat);
    }
}

fn read_entry(packed: &[u8], reader: &mut ByteReader) -> (r: Option<Entry>)
    ensures
        r is Some == packed_entry(packed@, old(reader).pos as int),
        r is Some ==> {
            &&& unpacked(r->Some_0, packed@, old(reader).pos as int)
            &&& valid_entry(r->Some_0)
            &&& final(reader).pos == old(reader).pos + entry_width(packed@[old(reader).pos as int] as nat)
        },
{
    let ghost pos = reader.pos as int;
    let start: usize = reader.pos;
    let len: usize = packed.len();
    if start >= len {
        return None;
    }
    let degree: usize = packed[start] as usize;
    if degree < 1 || degree > MAX_DEGREE {
        return None;
    }
    proof {
        lemma_m_offsets();
        lemma_m_offset_mono((degree + 1) as nat, 14);
    }
    let mut width: usize = 5;
    let mut i: usize = 1;
    while i <= degree
        invariant
            1 <= i <= degree + 1,
            degree <= MAX_DEGREE,
            width == 5 + m_offset(i as nat),
            m_offset(i as nat) <= 18,
        decreases degree + 1 - i,
    {
        proof {
            lemma_m_offsets();
            lemma_m_offset_step(i as nat);
            lemma_m_offset_mono((i + 1) as nat, 14);
        }
        width = width + m_width(i);
        i = i + 1;
    }
    if width > len - start {
        return None;
    }
    let _degree: u32 = reader.read(packed, 1);
    proof {
        assert(field(packed@, pos, 1) == packed@[pos] as nat) by {
            reveal_with_fuel(field, 2);
        }
    }
    let poly: u32 = reader.read(packed, 4);
    let mut m: Vec<u32> = Vec::new();
    let mut i: usize = 0;
    while i < degree
        invariant
            i <= degree <= MAX_DEGREE,
            pos == old(reader).pos,
            pos + 5 + m_offset((degree + 1) as nat) <= packed@.len(),
            reader.pos == pos + 5 + m_offset((i + 1) as nat),
            m@.len() == i,
            degree == packed@[pos],
            forall|q: int| 0 <= q < i ==> #[trigger] m@[q] == packed_m(packed@, pos, (q + 1) as nat)
                && m_in_range((q + 1) as nat, m@[q] as nat),
        decreases degree - i,
    {
        proof {
            lemma_m_offset_step((i + 1) as nat);
            lemma_m_offset_mono((i + 2) as nat, (degree + 1) as nat);
        }
        let value: u32 = reader.read(packed, m_width(i + 1));
        if !in_range(i + 1, value) {
            assert(!m_in_range((i + 1) as nat, packed_m(packed@, pos, (i + 1) as nat)));
            return None;
        }
        m.push(value);
        i = i + 1;
    }
    assert forall|i: nat| 1 <= i <= packed@[pos] implies m_in_range(i, #[trigger] packed_m(packed@, pos, i)) by {
        assert(m@[i - 1] == packed_m(packed@, pos, (i - 1 + 1) as nat));
    }
    Some(Entry { poly, degree, m })
}

fn in_range(i: usize, value: u32) -> (r: bool)
    requires
        1 <= i <= MAX_DEGREE,
    ensures
        r == m_in_range(i as nat, value as nat),
{
    let mut bound: u32 = 1;
    let mut k: usize = 0;
    proof {
        vstd::arithmetic::power2::lemma2_to64();
    }
    while k < i
        invariant
            k <= i <= MAX_DEGREE,
            bound == vstd::arithmetic::power2::pow2(k as nat),
            bound <= 0x2000,
            k < 13 ==> bound <= 0x1000,
        decreases i - k,
    {
        proof {
            vstd::arithmetic::power2::lemma_pow2_unfold((k + 1) as nat);
            vstd::arithmetic::power2::lemma2_to64();
            if k + 1 < 12 {
                vstd::arithmetic::power2::lemma_pow2_strictly_increases((k + 1) as nat, 12);
            }
        }
        bound = bound * 2;
        k = k + 1;
    }
    value % 2 == 1 && value < bound
}

/// The term `x^i` is present in the polynomial.
pub open spec fn has_term(poly: u32, i: nat) -> bool {
    (poly >> (i as u32)) & 1 == 1
}

/// The `j`-th value of a dimension, counted from 0: an initial value, or what the
/// recurrence gives.
pub open spec fn m_at(entry: Entry, j: nat) -> u32
    decreases j, entry.degree + 2,
{
    if j < entry.degree || entry.degree == 0 {
        entry.m@[j as int]
    } else {
        mixed(entry, j, entry.degree as nat)
    }
}

/// The recurrence up to its `k`-th term: the value `degree` places back, exclusive-or
/// `2^i` times the value `i` places back for each `i` up to `k` whose term is present.
pub open spec fn mixed(entry: Entry, j: nat, k: nat) -> u32
    decreases j, k + 1,
{
    if entry.degree == 0 || j < entry.degree || k > entry.degree {
        0
    } else if k == 0 {
        m_at(entry, (j - entry.degree) as nat)
    } else {
        let rest = mixed(entry, j, (k - 1) as nat);
        if has_term(entry.poly, (entry.degree - k) as nat) {
            rest ^ (m_at(entry, (j - k) as nat) << (k as u32))
        } else {
            rest
        }
    }
}

/// The direction numbers of a dimension, as fixed-point fractions.
pub open spec fn directions_of(entry: Entry) -> Seq<u32> {
    Seq::new(BITS as nat, |j: int| m_at(entry, j as nat) << ((29 - j) as u32))
}

/// The direction numbers of the first dimension.
pub open spec fn first_directions() -> Seq<u32> {
    Seq::new(BITS as nat, |j: int| 1u32 << ((29 - j) as u32))
}

/// The value needs no more than `n` bits.
pub open spec fn fits(x: u32, n: u32) -> bool {
    x >> n == 0
}

proof fn lemma_initial(entry: Entry, j: nat)
    requires
        valid_entry(entry),
        j < entry.degree,
    ensures
        fits(entry.m@[j as int], (j + 1) as u32),
        entry.m@[j as int] & 1 == 1,
{
    let x = entry.m@[j as int];
    assert(m_in_range((j + 1) as nat, x as nat));
    vstd::bits::lemma_u32_shr_is_div(x, (j + 1) as u32);
    vstd::arithmetic::div_mod::lemma_basic_div(x as int, vstd::arithmetic::power2::pow2((j + 1) as nat) as int);
    assert(x % 2 == 1 ==> x & 1 == 1) by (bit_vector);
}

proof fn lemma_m_at(entry: Entry, j: nat)
    requires
        valid_entry(entry),
        j < 30,
    ensures
        fits(m_at(entry, j), (j + 1) as u32),
        m_at(entry, j) & 1 == 1,
    decreases j, entry.degree + 2,
{
    if j < entry.degree {
        lemma_initial(entry, j);
    } else {
        lemma_mixed(entry, j, entry.degree as nat);
    }
}

proof fn lemma_mixed(entry: Entry, j: nat, k: nat)
    requires
        valid_entry(entry),
        entry.degree <= j < 30,
        k <= entry.degree,
    ensures
        fits(mixed(entry, j, k), (j + 1) as u32),
        mixed(entry, j, k) & 1 == 1,
    decreases j, k + 1,
{
    let n = (j + 1) as u32;
    if k == 0 {
        let x = m_at(entry, (j - entry.degree) as nat);
        let a = (j - entry.degree + 1) as u32;
        lemma_m_at(entry, (j - entry.degree) as nat);
        assert(x >> a == 0 && a <= n && n < 32 ==> x >> n == 0) by (bit_vector);
    } else {
        lemma_mixed(entry, j, (k - 1) as nat);
        lemma_m_at(entry, (j - k) as nat);
        let rest = mixed(entry, j, (k - 1) as nat);
        let x = m_at(entry, (j - k) as nat);
        let a = (j - k + 1) as u32;
        let s = k as u32;
        let t = x << s;
        assert(x >> a == 0 && t == x << s && n == a + s && n < 32 && a < 32 && s < 32 ==> t >> n == 0) by (bit_vector);
        assert(rest >> n == 0 && t >> n == 0 ==> (rest ^ t) >> n == 0) by (bit_vector);
        assert(rest & 1 == 1 && t == x << s && 1 <= s && s < 32 ==> (rest ^ t) & 1 == 1) by (bit_vector);
    }
}

/// Builds the direction numbers for all dimensions: the first, and one for each entry.
pub fn initialize_direction_numbers(entries: &Vec<Entry>) -> (rows: Vec<Vec<u32>>)
    requires
        entries@.len() < usize::MAX,
        forall|i: int| 0 <= i < entries@.len() ==> valid_entry(#[trigger] entries@[i]),
    ensures
        rows@.len() == entries@.len() + 1,
        rows@[0]@ == first_directions(),
        forall|i: int| 0 <= i < entries@.len() ==> (#[trigger] rows@[i + 1])@ == directions_of(entries@[i]),
{
    let mut rows: Vec<Vec<u32>> = Vec::new();
    let mut first: Vec<u32> = Vec::new();
    let mut j: usize = 0;
    while j < BITS
        invariant
            j <= BITS,
            first@.len() == j,
            forall|q: int| 0 <= q < j ==> #[trigger] first@[q] == 1u32 << ((29 - q) as u32),
        decreases BITS - j,
    {
        let up: u32 = (29 - j) as u32;
        first.push(1u32 << up);
        j = j + 1;
    }
    assert(first@ =~= first_directions());
    rows.push(first);
    let mut i: usize = 0;
    while i < entries.len()
        invariant
            i <= entries@.len(),
            forall|i: int| 0 <= i < entries@.len() ==> valid_entry(#[trigger] entries@[i]),
            rows@.len() == i + 1,
            rows@[0]@ == first_directions(),
            forall|q: int| 0 <= q < i ==> (#[trigger] rows@[q + 1])@ == directions_of(entries@[q]),
        decreases entries@.len() - i,
    {
        let row = direction_row(&entries[i]);
        rows.push(row);
        assert forall|q: int| 0 <= q < i + 1 implies (#[trigger] rows@[q + 1])@ == directions_of(entries@[q]) by {}
        i = i + 1;
    }
    rows
}

fn direction_row(entry: &Entry) -> (row: Vec<u32>)
    requires
        valid_entry(*entry),
    ensures
        row@ == directions_of(*entry),
{
    let degree: usize = entry.degree;
    let mut values: Vec<u32> = Vec::new();
    let mut row: Vec<u32> = Vec::new();
    let mut j: usize = 0;
    while j < BITS
        invariant
            j <= BITS,
            valid_entry(*entry),
            degree == entry.degree,
            values@.len() == j,
            row@.len() == j,
            forall|q: int| 0 <= q < j ==> #[trigger] values@[q] == m_at(*entry, q as nat),
            forall|q: int| 0 <= q < j ==> #[trigger] row@[q] == m_at(*entry, q as nat) << ((29 - q) as u32),
        decreases BITS - j,
    {
        let value: u32 = if j < degree {
            entry.m[j]
        } else {
            let mut value: u32 = values[j - degree];
            let mut k: usize = 1;
            while k <= degree
                invariant
                    1 <= k <= degree + 1,
                    degree <= j < BITS,
                    degree <= MAX_DEGREE,
                    degree == entry.degree,
                    degree >= 1,
                    values@.len() == j,
                    forall|q: int| 0 <= q < j ==> #[trigger] values@[q] == m_at(*entry, q as nat),
                    value == mixed(*entry, j as nat, (k - 1) as nat),
                decreases degree + 1 - k,
            {
                let down: u32 = (degree - k) as u32;
                if (entry.poly >> down) & 1 == 1 {
                    let up: u32 = k as u32;
                    value = value ^ (values[j - k] << up);
                }
                k = k + 1;
            }
            value
        };
        values.push(value);
        let up: u32 = (29 - j) as u32;
        row.push(value << up);
        j = j + 1;
    }
    assert(row@ =~= directions_of(*entry));
    row
}

/// The exclusive-or of the direction numbers that the low `n` bits of `gray` select.
pub open spec fn selected(row: Seq<u32>, gray: u64, n: nat) -> u32
    decreases n,
{
    if n == 0 {
        0
    } else {
        let rest = selected(row, gray, (n - 1) as nat);
        if (gray >> ((n - 1) as u64)) & 1 == 1 {
            rest ^ row[n - 1]
        } else {
            rest
        }
    }
}

/// The Gray code of an index.
pub open spec fn gray_code(n: u64) -> u64 {
    n ^ (n >> 1)
}

proof fn lemma_no_more_bits(row: Seq<u32>, gray: u64, j: nat, n: nat)
    requires
        j <= n <= 30,
        gray >> (j as u64) == 0,
    ensures
        selected(row, gray, n) == selected(row, gray, j),
    decreases n - j,
{
    if j < n {
        lemma_no_more_bits(row, gray, j, (n - 1) as nat);
        let a = j as u64;
        let b = (n - 1) as u64;
        assert(gray >> a == 0 && a <= b && b < 64 ==> (gray >> b) & 1 == 0) by (bit_vector);
    }
}

/// Exclusive-ors the direction numbers selected by the set bits of the Gray code of `n`.
pub fn gray_code_xor(row: &Vec<u32>, n: u64) -> (quasi: u32)
    requires
        row@.len() == BITS,
        n < CAPACITY,
    ensures
        quasi == selected(row@, gray_code(n), BITS as nat),
{
    let all: u64 = n ^ (n >> 1);
    let mut quasi: u32 = 0;
    let mut gray: u64 = all;
    let mut j: usize = 0;
    assert(all >> 0 == all) by (bit_vector);
    assert(n < 0x4000_0000 && all == n ^ (n >> 1) ==> all >> 30 == 0) by (bit_vector);
    while gray != 0
        invariant
            row@.len() == BITS,
            j <= BITS,
            all >> 30 == 0,
            gray == all >> (j as u64),
            quasi == selected(row@, all, j as nat),
        decreases BITS - j,
    {
        assert(j < 30);
        if gray & 1 == 1 {
            quasi = quasi ^ row[j];
        }
        let ghost a = j as u64;
        assert(a < 63 ==> (all >> a) >> 1 == all >> ((a + 1) as u64)) by (bit_vector);
        gray = gray >> 1;
        j = j + 1;
    }
    proof {
        lemma_no_more_bits(row@, all, j as nat, 30);
    }
    quasi
}

/// The fixed-point fraction as a number in `[0, 1)`: the integer with its exponent
/// lowered.
pub open spec fn fraction(quasi: u32) -> Float {
    if quasi == 0 {
        Float { bits: 0 }
    } else {
        Float { bits: (of_nat(quasi as nat).bits - 30 * 0x10_0000_0000_0000) as u64 }
    }
}

/// A fraction is the integer divided by `2^30`.
pub proof fn law_fraction_is_scaled(quasi: u32)
    requires
        quasi > 0,
    ensures
        fraction(quasi).mantissa() == of_nat(quasi as nat).mantissa(),
        fraction(quasi).exponent() == of_nat(quasi as nat).exponent() - 30,
{
    crate::convert::lemma_small_conversion(quasi as nat, 30);
}

/// Turns a fixed-point fraction into a number in `[0, 1)`.
pub fn scale(quasi: u32) -> (r: Float)
    ensures
        r == fraction(quasi),
{
    if quasi == 0 {
        return Float { bits: 0 };
    }
    let whole = Float::from_u64(quasi as u64);
    proof {
        crate::convert::lemma_small_conversion(quasi as nat, 30);
    }
    Float { bits: whole.bits - 30 * 0x10_0000_0000_0000 }
}

/// Returns the point at index `n` of the `dim`-dimensional Sobol' sequence, where index 0
/// is the origin. The direction numbers are those of all supported dimensions.
pub fn nth_point(directions: &Vec<Vec<u32>>, dim: usize, n: u64) -> (r: Result<Vec<Float>>)
    requires
        dim <= MAX_DIM ==> dim <= directions@.len(),
        forall|i: int| 0 <= i < directions@.len() ==> (#[trigger] directions@[i])@.len() == BITS,
    ensures
        if dim == 0 || dim > MAX_DIM {
            fails_because(r, ErrorKind::SamplerError, "Sobol' dimension must be in 1..=1024, got "@ + decimal(dim as nat))
        } else if n >= CAPACITY {
            fails_because(r, ErrorKind::SamplerError, "Sobol' point index must be below 2**30=1073741824, got "@ + decimal(n as nat))
        } else {
            r is Ok && r->Ok_0@ == point(directions@, dim as nat, n)
        },
{
    if dim == 0 || dim > MAX_DIM {
        let reason = joined("Sobol' dimension must be in 1..=1024, got ", decimal_text(dim as u64).as_str());
        return Err(Error::with_reason(ErrorKind::SamplerError, reason));
    }
    if n >= CAPACITY {
        let reason = joined("Sobol' point index must be below 2**30=1073741824, got ", decimal_text(n).as_str());
        return Err(Error::with_reason(ErrorKind::SamplerError, reason));
    }
    let mut out: Vec<Float> = Vec::new();
    let mut i: usize = 0;
    while i < dim
        invariant
            i <= dim <= directions@.len(),
            n < CAPACITY,
            forall|i: int| 0 <= i < directions@.len() ==> (#[trigger] directions@[i])@.len() == BITS,
            out@.len() == i,
            forall|q: int| 0 <= q < i ==> #[trigger] out@[q] == fraction(selected(directions@[q]@, gray_code(n), BITS as nat)),
        decreases dim - i,
    {
        out.push(scale(gray_code_xor(&directions[i], n)));
        i = i + 1;
    }
    assert(out@ =~= point(directions@, dim as nat, n));
    Ok(out)
}

/// A point of the sequence.
pub open spec fn point(directions: Seq<Vec<u32>>, dim: nat, n: u64) -> Seq<Float> {
    Seq::new(dim, |i: int| fraction(selected(directions[i]@, gray_code(n), BITS as nat)))
}

/// The sequence starts at the origin.
pub proof fn law_sequence_starts_at_the_origin(directions: Seq<Vec<u32>>, dim: nat, i: int)
    requires
        0 <= i < dim,
    ensures
        point(directions, dim, 0)[i] == (Float { bits: 0 }),
{
    assert(0u64 ^ (0u64 >> 1) == 0) by (bit_vector);
    assert(0u64 >> 0 == 0) by (bit_vector);
    lemma_no_more_bits(directions[i]@, 0, 0, 30);
}

/// The `j`-th direction number is a fraction, with its lowest set bit `j + 1` places below
/// the point.
pub open spec fn triangular(row: Seq<u32>) -> bool {
    &&& row.len() == BITS
    &&& forall|j: int| 0 <= j < 30 ==> lowest_bit_at(#[trigger] row[j], (29 - j) as u32) && fits(row[j], 30)
}

pub open spec fn lowest_bit_at(x: u32, at: u32) -> bool {
    (x >> at) & 1 == 1 && ((x >> at) << at) == x
}

proof fn lemma_triangular(entry: Entry)
    requires
        valid_entry(entry),
    ensures
        triangular(directions_of(entry)),
        triangular(first_directions()),
{
    assert forall|j: int| 0 <= j < 30 implies lowest_bit_at(#[trigger] directions_of(entry)[j], (29 - j) as u32) && fits(
        directions_of(entry)[j],
        30,
    ) by {
        lemma_m_at(entry, j as nat);
        let x = m_at(entry, j as nat);
        let n = (j + 1) as u32;
        let s = (29 - j) as u32;
        let v = x << s;
        assert(x >> n == 0 && x & 1 == 1 && v == x << s && n + s == 30 && n < 31 && s < 30 ==> (v >> s) & 1 == 1 && ((v >> s) << s) == v
            && v >> 30 == 0) by (bit_vector);
    }
    assert forall|j: int| 0 <= j < 30 implies lowest_bit_at(#[trigger] first_directions()[j], (29 - j) as u32) && fits(
        first_directions()[j],
        30,
    ) by {
        let s = (29 - j) as u32;
        let v = 1u32 << s;
        assert(v == 1u32 << s && s < 30 ==> (v >> s) & 1 == 1 && ((v >> s) << s) == v && v >> 30 == 0) by (bit_vector);
    }
}

proof fn lemma_linear(row: Seq<u32>, a: u64, b: u64, n: nat)
    requires
        n <= 30,
    ensures
        selected(row, a, n) ^ selected(row, b, n) == selected(row, a ^ b, n),
    decreases n,
{
    if n == 0 {
        assert(0u32 ^ 0u32 == 0) by (bit_vector);
    } else {
        lemma_linear(row, a, b, (n - 1) as nat);
        let s = (n - 1) as u64;
        let x = selected(row, a, (n - 1) as nat);
        let y = selected(row, b, (n - 1) as nat);
        let z = selected(row, a ^ b, (n - 1) as nat);
        let v = row[n - 1];
        assert(((a ^ b) >> s) & 1 == ((a >> s) & 1) ^ ((b >> s) & 1)) by (bit_vector);
        assert((a >> s) & 1 == 0 || (a >> s) & 1 == 1) by (bit_vector);
        assert((b >> s) & 1 == 0 || (b >> s) & 1 == 1) by (bit_vector);
        assert(0u64 ^ 0u64 == 0 && 0u64 ^ 1u64 == 1 && 1u64 ^ 0u64 == 1 && 1u64 ^ 1u64 == 0) by (bit_vector);
        assert(x ^ y == z ==> (x ^ v) ^ y == z ^ v && x ^ (y ^ v) == z ^ v && (x ^ v) ^ (y ^ v) == z) by (bit_vector);
    }
}

/// What the low `k` bits select has no set bit below bit `30 - k`, and has bit `30 - k` set
/// where the highest of them is.
proof fn lemma_selected_bits(row: Seq<u32>, g: u64, k: nat)
    requires
        triangular(row),
        k <= 30,
    ensures
        k > 0 ==> (selected(row, g, k) >> ((30 - k) as u32)) << ((30 - k) as u32) == selected(row, g, k),
        k > 0 && (g >> ((k - 1) as u64)) & 1 == 1 ==> (selected(row, g, k) >> ((30 - k) as u32)) & 1 == 1,
        k == 0 ==> selected(row, g, k) == 0,
    decreases k,
{
    if k > 0 {
        lemma_selected_bits(row, g, (k - 1) as nat);
        let rest = selected(row, g, (k - 1) as nat);
        let v = row[k - 1];
        let s = (30 - k) as u32;
        assert(lowest_bit_at(row[k - 1], (29 - (k - 1)) as u32));
        if k == 1 {
            assert(rest == 0);
            assert(rest == 0 ==> (rest >> s) << s == rest && (rest >> s) & 1 == 0) by (bit_vector);
        } else {
            let t = (s + 1) as u32;
            assert((rest >> t) << t == rest && t == s + 1 && t < 32 ==> (rest >> s) << s == rest && (rest >> s) & 1 == 0) by (bit_vector);
        }
        assert((rest >> s) << s == rest && (v >> s) << s == v ==> ((rest ^ v) >> s) << s == rest ^ v) by (bit_vector);
        assert((rest >> s) & 1 == 0 && (v >> s) & 1 == 1 ==> ((rest ^ v) >> s) & 1 == 1) by (bit_vector);
    }
}

proof fn lemma_selected_nonzero(row: Seq<u32>, g: u64, k: nat)
    requires
        triangular(row),
        k <= 30,
        g != 0,
        g >> (k as u64) == 0,
    ensures
        selected(row, g, 30) >> ((30 - k) as u32) != 0,
    decreases k,
{
    if k == 0 {
        assert(g >> 0 == g) by (bit_vector);
    } else {
        let top = (g >> ((k - 1) as u64)) & 1;
        let a = (k - 1) as u64;
        let b = k as u64;
        lemma_no_more_bits(row, g, k, 30);
        if top == 1 {
            lemma_selected_bits(row, g, k);
            let q = selected(row, g, k);
            let s = (30 - k) as u32;
            assert((q >> s) & 1 == 1 ==> q >> s != 0) by (bit_vector);
        } else {
            assert(g >> b == 0 && b == a + 1 && b < 64 && (g >> a) & 1 != 1 ==> g >> a == 0) by (bit_vector);
            lemma_selected_nonzero(row, g, (k - 1) as nat);
            let q = selected(row, g, 30);
            let s = (30 - k) as u32;
            let t = (31 - k) as u32;
            if t < 31 {
                assert(q >> t != 0 && t == s + 1 && t < 32 ==> q >> s != 0) by (bit_vector);
            } else {
                assert(q >> t != 0 && t == s + 1 && t < 32 ==> q >> s != 0) by (bit_vector);
            }
        }
    }
}

/// In every dimension, the first `2^k` points lie in different ones of the `2^k` intervals
/// of equal length.
pub proof fn law_points_are_stratified(row: Seq<u32>, k: nat, a: u64, b: u64)
    requires
        triangular(row),
        k <= 30,
        a >> (k as u64) == 0,
        b >> (k as u64) == 0,
        a != b,
    ensures
        selected(row, gray_code(a), 30) >> ((30 - k) as u32) != selected(row, gray_code(b), 30) >> ((30 - k) as u32),
{
    let s = k as u64;
    let ga = gray_code(a);
    let gb = gray_code(b);
    let g = ga ^ gb;
    let c = a ^ b;
    assert(a != b && c == a ^ b ==> c != 0) by (bit_vector);
    assert(c == a ^ b ==> (a ^ (a >> 1)) ^ (b ^ (b >> 1)) == c ^ (c >> 1)) by (bit_vector);
    assert(c != 0 ==> c ^ (c >> 1) != 0) by (bit_vector);
    assert(a >> s == 0 && b >> s == 0 && s < 64 ==> ((a ^ (a >> 1)) ^ (b ^ (b >> 1))) >> s == 0) by (bit_vector);
    lemma_selected_nonzero(row, g, k);
    lemma_linear(row, ga, gb, 30);
    let x = selected(row, ga, 30);
    let y = selected(row, gb, 30);
    let t = (30 - k) as u32;
    assert((x ^ y) >> t != 0 ==> x >> t != y >> t) by (bit_vector);
}

proof fn lemma_selected_fits(row: Seq<u32>, g: u64, k: nat)
    requires
        triangular(row),
        k <= 30,
    ensures
        fits(selected(row, g, k), 30),
    decreases k,
{
    if k == 0 {
        assert(0u32 >> 30 == 0) by (bit_vector);
    } else {
        lemma_selected_fits(row, g, (k - 1) as nat);
        let x = selected(row, g, (k - 1) as nat);
        let v = row[k - 1];
        assert(lowest_bit_at(row[k - 1], (29 - (k - 1)) as u32) && fits(row[k - 1], 30));
        assert(x >> 30 == 0 && v >> 30 == 0 ==> (x ^ v) >> 30 == 0) by (bit_vector);
    }
}

/// What index `n` selects of a dimension's direction numbers.
pub open spec fn quasi(row: Seq<u32>, n: u64) -> u32 {
    selected(row, gray_code(n), BITS as nat)
}

/// An index below `2^m` selects a multiple of `2^(30 - m)`.
proof fn lemma_on_grid(row: Seq<u32>, m: nat, n: u64) -> (i: nat)
    requires
        triangular(row),
        m <= 30,
        n < pow2(m),
    ensures
        i < pow2(m),
        quasi(row, n) == i * pow2((30 - m) as nat),
        i == quasi(row, n) >> ((30 - m) as u32),
        n >> (m as u64) == 0,
{
    let s = (30 - m) as u32;
    let g = gray_code(n);
    let x = quasi(row, n);
    let w = m as u64;
    vstd::arithmetic::power2::lemma_pow2_pos(m);
    vstd::arithmetic::power2::lemma_pow2_pos(s as nat);
    vstd::arithmetic::power2::lemma_pow2_adds(m, s as nat);
    vstd::arithmetic::power2::lemma2_to64();
    vstd::arithmetic::power2::lemma2_to64_rest();
    vstd::bits::lemma_u64_shr_is_div(n, w);
    vstd::arithmetic::div_mod::lemma_basic_div(n as int, pow2(m) as int);
    assert(n >> w == 0 && w < 64 ==> (n ^ (n >> 1)) >> w == 0) by (bit_vector);
    lemma_no_more_bits(row, g, m, 30);
    lemma_selected_bits(row, g, m);
    lemma_selected_fits(row, g, 30);
    vstd::bits::lemma_u32_shr_is_div(x, 30);
    vstd::bits::lemma_u32_shr_is_div(x, s);
    let p = pow2(s as nat) as int;
    assert(x < pow2(30)) by {
        vstd::arithmetic::div_mod::lemma_fundamental_div_mod(x as int, pow2(30) as int);
        vstd::arithmetic::div_mod::lemma_mod_bound(x as int, pow2(30) as int);
    }
    let i = (x as int / p) as nat;
    vstd::arithmetic::div_mod::lemma_fundamental_div_mod(x as int, p);
    vstd::arithmetic::div_mod::lemma_mod_bound(x as int, p);
    assert(i * p <= x) by (nonlinear_arith)
        requires x as int == p * (x as int / p) + x as int % p, i == x as int / p, x as int % p >= 0;
    assert(i < pow2(m)) by (nonlinear_arith)
        requires i * p <= x, x < pow2(m) * p, p > 0;
    if m == 0 {
        assert(x == 0);
        assert(i * p == 0) by (nonlinear_arith)
            requires i == 0;
    } else {
        assert((x >> s) << s == x);
        vstd::bits::lemma_u32_shl_is_mul(x >> s, s);
        assert(x == i * p);
    }
    i
}

/// The values of a dimension at the indices below `2^m`, without their common factor.
spec fn grid_places(row: Seq<u32>, m: nat) -> Seq<int> {
    Seq::new(pow2(m), |n: int| (quasi(row, n as u64) >> ((30 - m) as u32)) as int)
}

proof fn lemma_every_place(row: Seq<u32>, m: nat, i: nat) -> (n: u64)
    requires
        triangular(row),
        m <= 30,
        i < pow2(m),
    ensures
        n < pow2(m),
        quasi(row, n) == i * pow2((30 - m) as nat),
{
    let places = grid_places(row, m);
    vstd::arithmetic::power2::lemma2_to64();
    vstd::arithmetic::power2::lemma2_to64_rest();
    if m < 30 {
        vstd::arithmetic::power2::lemma_pow2_strictly_increases(m, 30);
    }
    let all = vstd::set_lib::set_int_range(0, pow2(m) as int);
    vstd::set_lib::lemma_int_range(0, pow2(m) as int);
    assert forall|a: int, b: int| 0 <= a < b < places.len() implies places[a] != places[b] by {
        let x = lemma_on_grid(row, m, a as u64);
        let y = lemma_on_grid(row, m, b as u64);
        law_points_are_stratified(row, m, a as u64, b as u64);
    }
    assert(places.no_duplicates());
    places.unique_seq_to_set();
    assert(places.to_set().subset_of(all)) by {
        assert forall|x: int| places.to_set().contains(x) implies all.contains(x) by {
            let k = choose|k: int| 0 <= k < places.len() && places[k] == x;
            let y = lemma_on_grid(row, m, k as u64);
        }
    }
    vstd::set_lib::lemma_subset_equality(places.to_set(), all);
    assert(all.contains(i as int));
    assert(places.contains(i as int));
    let k = choose|k: int| 0 <= k < places.len() && places[k] == i;
    let y = lemma_on_grid(row, m, k as u64);
    k as u64
}

/// Different fractions are different numbers.
proof fn lemma_fraction_injective(a: u32, b: u32)
    requires
        fraction(a) == fraction(b),
    ensures
        a == b,
{
    crate::convert::law_small_integer_reads_back(a as int);
    crate::convert::law_small_integer_reads_back(b as int);
    if a > 0 {
        crate::convert::lemma_small_conversion(a as nat, 30);
    }
    if b > 0 {
        crate::convert::lemma_small_conversion(b as nat, 30);
    }
    if a > 0 && b > 0 {
        assert(of_nat(a as nat).bits == of_nat(b as nat).bits);
        assert(crate::convert::of_int(a as int) == crate::convert::of_int(b as int));
    } else if a > 0 {
        lemma_fraction_positive(a);
    } else if b > 0 {
        lemma_fraction_positive(b);
    }
}

proof fn lemma_fraction_positive(a: u32)
    requires
        a > 0,
    ensures
        fraction(a).bits > 0,
{
    law_fraction_is_scaled(a);
    crate::convert::law_conversion_is_nearest(a as nat);
    crate::convert::lemma_small_conversion(a as nat, 30);
    crate::convert::lemma_small_conversion(a as nat, 31);
}

/// The number `i / 2^m`.
pub open spec fn grid_value(i: nat, m: nat) -> Float {
    fraction((i * pow2((30 - m) as nat)) as u32)
}

/// The value is a multiple of `2^-m`, from 0 up to 1.
pub open spec fn on_grid(value: Float, m: nat) -> bool {
    exists|i: nat| i < pow2(m) && value == #[trigger] grid_value(i, m)
}

/// One of the first `2^m` points has the value as its coordinate `c`.
pub open spec fn is_value(directions: Seq<Vec<u32>>, dim: nat, c: int, m: nat, value: Float) -> bool {
    exists|n: u64| n < pow2(m) && (#[trigger] point(directions, dim, n))[c] == value
}

/// In every dimension, the first `2^m` values are the multiples of `2^-m` from 0 up to 1,
/// each of them once.
pub proof fn law_first_values_fill_the_grid(directions: Seq<Vec<u32>>, dim: nat, c: int, m: nat)
    requires
        0 <= c < dim,
        triangular(directions[c]@),
        m <= 30,
    ensures
        forall|n: u64| n < pow2(m) ==> #[trigger] on_grid(point(directions, dim, n)[c], m),
        forall|i: nat| i < pow2(m) ==> #[trigger] is_value(directions, dim, c, m, grid_value(i, m)),
        forall|a: u64, b: u64| a < pow2(m) && b < pow2(m) && (#[trigger] point(directions, dim, a))[c] == (#[trigger] point(
            directions,
            dim,
            b,
        ))[c] ==> a == b,
{
    let row = directions[c]@;
    assert forall|n: u64| n < pow2(m) implies #[trigger] on_grid(point(directions, dim, n)[c], m) by {
        let i = lemma_on_grid(row, m, n);
        assert(point(directions, dim, n)[c] == grid_value(i, m));
    }
    assert forall|i: nat| i < pow2(m) implies #[trigger] is_value(directions, dim, c, m, grid_value(i, m)) by {
        let n = lemma_every_place(row, m, i);
        assert(point(directions, dim, n)[c] == grid_value(i, m));
    }
    assert forall|a: u64, b: u64| a < pow2(m) && b < pow2(m) && (#[trigger] point(directions, dim, a))[c] == (#[trigger] point(
        directions,
        dim,
        b,
    ))[c] implies a == b by {
        lemma_fraction_injective(quasi(row, a), quasi(row, b));
        let x = lemma_on_grid(row, m, a);
        let y = lemma_on_grid(row, m, b);
        if a != b {
            law_points_are_stratified(row, m, a, b);
        }
    }
}

/// A coordinate does not depend on how many dimensions there are besides.
pub proof fn law_coordinates_do_not_depend_on_dimension(directions: Seq<Vec<u32>>, d: nat, e: nat, n: u64, c: int)
    requires
        0 <= c < d,
        c < e,
    ensures
        point(directions, d, n)[c] == point(directions, e, n)[c],
{
}

proof fn lemma_one_bit(row: Seq<u32>, c: nat, n: nat)
    requires
        c < 30,
        n <= 30,
    ensures
        selected(row, 1u64 << (c as u64), n) == if c < n { row[c as int] } else { 0 },
    decreases n,
{
    if n > 0 {
        lemma_one_bit(row, c, (n - 1) as nat);
        let a = c as u64;
        let b = (n - 1) as u64;
        let v = row[c as int];
        assert(a < 30 && b < 30 ==> ((1u64 << a) >> b) & 1 == (if a == b { 1u64 } else { 0u64 })) by (bit_vector);
        assert(0u32 ^ v == v) by (bit_vector);
    }
}

/// From one index to the next, one direction number is taken in or out: the one at the
/// lowest bit that is not set in the index.
pub proof fn law_next_point_changes_one_direction(row: Seq<u32>, n: u64, c: nat)
    requires
        c < 30,
        n < CAPACITY,
        (n >> (c as u64)) & 1 == 0,
        (n >> (c as u64)) << (c as u64) == n - (1u64 << (c as u64)) + 1,
    ensures
        quasi(row, (n + 1) as u64) == quasi(row, n) ^ row[c as int],
{
    let s = c as u64;
    let next = (n + 1) as u64;
    let ga = gray_code(n);
    let gb = gray_code(next);
    let one = 1u64 << s;
    let high = (n >> s) << s;
    assert(s < 30 && n < 0x4000_0000 && one == 1u64 << s && high == (n >> s) << s && (n >> s) & 1 == 0 && high == n - one + 1 && next == n + 1
        ==> (n ^ (n >> 1)) ^ (next ^ (next >> 1)) == one) by (bit_vector);
    lemma_linear(row, ga, gb, 30);
    lemma_one_bit(row, c, 30);
    let x = quasi(row, n);
    let y = quasi(row, next);
    let v = row[c as int];
    assert(x ^ y == v ==> y == x ^ v) by (bit_vector);
}

/// The direction numbers of every valid dimension, and those of the first, are such that
/// points are stratified.
pub proof fn law_direction_numbers_are_triangular(entry: Entry)
    requires
        valid_entry(entry),
    ensures
        triangular(directions_of(entry)),
        triangular(first_directions()),
{
    lemma_triangular(entry);
}

/// The exclusive-or of all numbers of a list.
pub open spec fn xor_of(list: Seq<u32>) -> u32
    decreases list.len(),
{
    if list.len() == 0 {
        0
    } else {
        xor_of(list.drop_last()) ^ list.last()
    }
}

proof fn lemma_mixed_as_directions(entry: Entry, j: nat, k: nat, terms: Seq<u32>)
    requires
        valid_entry(entry),
        entry.degree <= j < 30,
        k <= entry.degree,
        terms.len() == entry.degree,
        forall|i: int|
            0 <= i < entry.degree ==> #[trigger] terms[i] == if (entry.poly >> ((entry.degree - 1 - i) as u32)) & 1 == 1 {
                directions_of(entry)[j - 1 - i]
            } else {
                0
            },
    ensures
        mixed(entry, j, k) << ((29 - j) as u32) == (directions_of(entry)[j - entry.degree] >> (entry.degree as u32)) ^ xor_of(
            terms.take(k as int),
        ),
    decreases k,
{
    let row = directions_of(entry);
    let u = (29 - j) as u32;
    let first = row[j - entry.degree] >> (entry.degree as u32);
    if k == 0 {
        let s = entry.degree as u32;
        let x = m_at(entry, (j - entry.degree) as nat);
        let a = (j - entry.degree + 1) as u32;
        let up = (29 - (j - entry.degree)) as u32;
        lemma_m_at(entry, (j - entry.degree) as nat);
        assert(x >> a == 0 && a + u + s == 30 && up == u + s && a < 32 && u < 32 && s < 32 ==> x << u == ((x << up) >> s) ^ 0) by (bit_vector);
        assert(terms.take(0) =~= Seq::<u32>::empty());
    } else {
        lemma_mixed_as_directions(entry, j, (k - 1) as nat, terms);
        let rest = mixed(entry, j, (k - 1) as nat);
        let before = xor_of(terms.take(k - 1));
        let last = terms[k - 1];
        assert(terms.take(k as int).drop_last() =~= terms.take(k - 1));
        assert(terms.take(k as int).last() == last);
        assert((first ^ before) ^ last == first ^ (before ^ last)) by (bit_vector);
        if has_term(entry.poly, (entry.degree - k) as nat) {
            let x = m_at(entry, (j - k) as nat);
            let s = k as u32;
            let up = (29 - (j - k)) as u32;
            assert(up == u + s && up < 32 ==> (rest ^ (x << s)) << u == (rest << u) ^ (x << up)) by (bit_vector);
            assert(last == row[j - k]);
        } else {
            assert(last == 0);
            let all = first ^ before;
            assert(all ^ 0 == all) by (bit_vector);
        }
    }
}

/// The direction numbers start from the initial values and go on by the recurrence of the
/// polynomial: the number at `j` is the one `s` places back shifted down by the degree `s`,
/// exclusive-or the one `k` places back for each `k` up to `s` for which the polynomial has the
/// term `x^(s - k)`.
pub proof fn law_direction_numbers_follow_the_polynomial(entry: Entry, row: Seq<u32>, j: int)
    requires
        valid_entry(entry),
        row == directions_of(entry),
        0 <= j < 30,
    ensures
        row.len() == 30,
        j < entry.degree ==> row[j] == entry.m@[j] << ((29 - j) as u32),
        j >= entry.degree ==> row[j] == (row[j - entry.degree] >> (entry.degree as u32)) ^ xor_of(
            Seq::new(
                entry.degree as nat,
                |i: int|
                    if (entry.poly >> ((entry.degree - 1 - i) as u32)) & 1 == 1 {
                        row[j - 1 - i]
                    } else {
                        0
                    },
            ),
        ),
{
    if j >= entry.degree {
        let terms = Seq::new(
            entry.degree as nat,
            |i: int|
                if (entry.poly >> ((entry.degree - 1 - i) as u32)) & 1 == 1 {
                    row[j - 1 - i]
                } else {
                    0
                },
        );
        lemma_mixed_as_directions(entry, j as nat, entry.degree as nat, terms);
        assert(terms.take(entry.degree as int) =~= terms);
    }
}

/// The direction numbers of the first dimension are the powers of two, from half the scale
/// downwards.
pub proof fn law_first_directions_halve(q: int)
    requires
        0 <= q < 29,
    ensures
        first_directions().len() == 30,
        first_directions()[q] == 2 * first_directions()[q + 1],
        first_directions()[29] == 1,
{
    let s = (28 - q) as u32;
    let t = (29 - q) as u32;
    assert(s < 29 && t == s + 1 ==> (1u32 << t) == 2 * (1u32 << s) && (1u32 << 0u32) == 1) by (bit_vector);
}

/// A packed number is little-endian: a further byte counts 256 times as much as the one before.
pub proof fn law_fields_are_little_endian(packed: Seq<u8>, pos: int, width: nat)
    ensures
        field(packed, pos, 0) == 0,
        field(packed, pos, width + 1) == field(packed, pos, width) + packed[pos + width] * vstd::arithmetic::power::pow(256, width),
    decreases width,
{
    reveal_with_fuel(field, 2);
    reveal(vstd::arithmetic::power::pow);
    if width > 0 {
        law_fields_are_little_endian(packed, pos + 1, (width - 1) as nat);
        let unit = vstd::arithmetic::power::pow(256, (width - 1) as nat);
        let x = packed[pos + width] as int;
        assert(256 * (x * unit) == x * (256 * unit)) by (nonlinear_arith);
        assert(packed[pos + 1 + (width - 1)] == packed[pos + width]);
    } else {
        assert(field(packed, pos + 1, 0) == 0);
    }
}

/// The initial values lie one after another, each in the fewest bytes that hold its bits.
pub proof fn law_values_are_packed_tightly(i: nat)
    requires
        i >= 1,
    ensures
        m_offset(1) == 0,
        8 * (m_offset(i + 1) - m_offset(i)) >= i,
        8 * (m_offset(i + 1) - m_offset(i) - 1) < i,
        entry_width(i) == 5 + m_offset(i + 1),
{
}

/// The table holds every dimension but the first: what is decoded for `dim` dimensions has one
/// entry less, and decoding fails exactly where one of them is not there.
pub proof fn law_first_dimension_needs_no_entry(r: Result<Vec<Entry>>, packed: Seq<u8>, dim: nat)
    requires
        decoded(r, packed, dim),
    ensures
        dim <= 1 ==> r is Ok && r->Ok_0@.len() == 0,
        r is Ok && dim > 0 ==> r->Ok_0@.len() + 1 == dim,
        r is Ok <==> forall|k: nat| k + 1 < dim ==> packed_entry(packed, #[trigger] entry_pos(packed, k)),
        r is Ok ==> forall|k: int|
            0 <= k < r->Ok_0@.len() ==> {
                let entry = #[trigger] r->Ok_0@[k];
                let pos = entry_pos(packed, k as nat);
                entry.degree == packed[pos] && entry.poly == field(packed, pos + 1, 4) && entry.m@.len() == entry.degree
            },
{
    if r is Ok {
        assert forall|k: nat| k + 1 < dim implies packed_entry(packed, #[trigger] entry_pos(packed, k)) by {}
    }
    if forall|k: nat| k + 1 < dim ==> packed_entry(packed, #[trigger] entry_pos(packed, k)) {
        assert(holds_dims(packed, asked_dims(dim)));
    }
}

/// The entries follow each other: the first one stands at the start, and each next one behind the
/// bytes of the one before.
pub proof fn law_entries_follow_each_other(packed: Seq<u8>, n: nat)
    ensures
        entry_pos(packed, 0) == 0,
        entry_pos(packed, n + 1) == entry_pos(packed, n) + 5 + m_offset(packed[entry_pos(packed, n)] as nat + 1),
{
}

} // verus!
