//! Bencode codec: values, a strict streaming parser, and a canonical encoder.
//!
//! The contracts are stated against `BencodeModel`, the mathematical shape of
//! a value, together with a specification-level parser (`spec_parse`) and
//! encoder (`spec_encode`). The round-trip laws relating the two are proved
//! in this module.

use vstd::prelude::*;

verus! {

broadcast use {
    vstd::seq::axiom_seq_index_decreases,
    vstd::seq::axiom_seq_subrange_decreases,
    vstd::slice::axiom_spec_len,
    vstd::std_specs::vec::axiom_vec_index_decreases,
};

/// A bencoded value: byte-string, signed 64-bit integer, list, or dictionary.
/// Dictionary entries keep the order in which they were parsed or built;
/// the encoder emits keys in ascending lexicographic byte order.
#[derive(Debug, PartialEq)]
pub enum BencodeValue {
    String(Vec<u8>),
    Integer(i64),
    List(Vec<BencodeValue>),
    Dictionary(Vec<(Vec<u8>, BencodeValue)>),
}

/// The mathematical shape of a bencoded value, used by all contracts.
pub enum BencodeModel {
    Str(Seq<u8>),
    Int(int),
    List(Seq<BencodeModel>),
    Dict(Seq<(Seq<u8>, BencodeModel)>),
}

impl BencodeValue {
    /// The mathematical value that this executable value represents.
    pub open spec fn model(self) -> BencodeModel
        decreases self,
    {
        match self {
            BencodeValue::String(s) => BencodeModel::Str(s@),
            BencodeValue::Integer(i) => BencodeModel::Int(i as int),
            BencodeValue::List(l) => BencodeModel::List(
                Seq::new(
                    l@.len(),
                    |i: int|
                        if 0 <= i < l@.len() {
                            l[i].model()
                        } else {
                            BencodeModel::Int(0)
                        },
                ),
            ),
            BencodeValue::Dictionary(d) => BencodeModel::Dict(
                Seq::new(
                    d@.len(),
                    |i: int|
                        if 0 <= i < d@.len() {
                            (d[i].0@, d[i].1.model())
                        } else {
                            (Seq::empty(), BencodeModel::Int(0))
                        },
                ),
            ),
        }
    }
}

/// Byte values of the bencode framing characters.
pub const B_MINUS: u8 = 45;

pub const B_COLON: u8 = 58;

pub const B_ZERO: u8 = 48;

pub const B_NINE: u8 = 57;

pub const B_INT: u8 = 105;

pub const B_LIST: u8 = 108;

pub const B_DICT: u8 = 100;

pub const B_END: u8 = 101;

// ---------------------------------------------------------------------------
// Decimal digits
// ---------------------------------------------------------------------------

pub open spec fn is_digit(b: u8) -> bool {
    B_ZERO <= b <= B_NINE
}

/// The decimal digits of `n`, most significant first, with no leading zero.
pub open spec fn dec_digits(n: nat) -> Seq<u8>
    decreases n,
{
    if n < 10 {
        seq![(B_ZERO + n) as u8]
    } else {
        dec_digits(n / 10) + seq![(B_ZERO + n % 10) as u8]
    }
}

/// The value of a run of decimal digits, most significant first.
pub open spec fn dec_val(digits: Seq<u8>) -> nat
    decreases digits.len(),
{
    if digits.len() == 0 {
        0
    } else {
        (dec_val(digits.drop_last()) * 10 + (digits.last() - B_ZERO)) as nat
    }
}

/// The canonical decimal form of a signed integer.
pub open spec fn int_digits(i: int) -> Seq<u8> {
    if i < 0 {
        seq![B_MINUS] + dec_digits((-i) as nat)
    } else {
        dec_digits(i as nat)
    }
}

proof fn lemma_dec_digits_are_digits(n: nat)
    ensures
        dec_digits(n).len() >= 1,
        forall|i: int| 0 <= i < dec_digits(n).len() ==> is_digit(#[trigger] dec_digits(n)[i]),
    decreases n,
{
    if n >= 10 {
        lemma_dec_digits_are_digits(n / 10);
    }
}

proof fn lemma_dec_digits_leading(n: nat)
    ensures
        dec_digits(n)[0] == B_ZERO ==> n == 0,
        n == 0 ==> dec_digits(n) == seq![B_ZERO],
    decreases n,
{
    if n >= 10 {
        lemma_dec_digits_leading(n / 10);
    }
}

/// Reading back the canonical digits of `n` yields `n`.
proof fn lemma_dec_val_of_digits(n: nat)
    ensures
        dec_val(dec_digits(n)) == n,
    decreases n,
{
    if n < 10 {
        let s = seq![(B_ZERO + n) as u8];
        assert(dec_digits(n) == s);
        assert(s.drop_last() =~= Seq::<u8>::empty());
        assert(dec_val(Seq::<u8>::empty()) == 0);
        assert(dec_val(s) == n);
    } else {
        lemma_dec_val_of_digits(n / 10);
        let ds = dec_digits(n);
        assert(ds.drop_last() == dec_digits(n / 10));
        assert(ds.last() == (B_ZERO + n % 10) as u8);
    }
}

proof fn lemma_dec_val_pos(digits: Seq<u8>)
    requires
        digits.len() >= 1,
        forall|i: int| 0 <= i < digits.len() ==> is_digit(#[trigger] digits[i]),
        digits[0] != B_ZERO,
    ensures
        dec_val(digits) >= 1,
    decreases digits.len(),
{
    if digits.len() > 1 {
        assert(digits.drop_last()[0] == digits[0]);
        lemma_dec_val_pos(digits.drop_last());
    }
}

/// A nonempty digit run without a leading zero is the canonical form of its value.
proof fn lemma_digits_canonical(digits: Seq<u8>)
    requires
        digits.len() >= 1,
        forall|i: int| 0 <= i < digits.len() ==> is_digit(#[trigger] digits[i]),
        digits[0] == B_ZERO ==> digits.len() == 1,
    ensures
        dec_digits(dec_val(digits)) == digits,
    decreases digits.len(),
{
    if digits.len() == 1 {
        let d = digits[0];
        assert(digits.drop_last() =~= Seq::<u8>::empty());
        assert(dec_val(Seq::<u8>::empty()) == 0);
        assert(dec_val(digits) == (d - B_ZERO));
        assert(dec_digits((d - B_ZERO) as nat) == seq![d]);
        assert(dec_digits(dec_val(digits)) =~= digits);
    } else {
        let front = digits.drop_last();
        assert(front[0] == digits[0]);
        lemma_digits_canonical(front);
        lemma_dec_val_pos(front);
        let n = dec_val(digits);
        assert(n == dec_val(front) * 10 + (digits.last() - B_ZERO));
        assert(n >= 10);
        assert(n / 10 == dec_val(front)) by {
            assert((dec_val(front) * 10 + (digits.last() - B_ZERO)) / 10 == dec_val(front))
                by (nonlinear_arith)
                requires
                    0 <= digits.last() - B_ZERO < 10,
            ;
        }
        assert(n % 10 == digits.last() - B_ZERO) by {
            assert((dec_val(front) * 10 + (digits.last() - B_ZERO)) % 10 == digits.last() - B_ZERO)
                by (nonlinear_arith)
                requires
                    0 <= digits.last() - B_ZERO < 10,
            ;
        }
        assert(dec_digits(n) == dec_digits(n / 10) + seq![(B_ZERO + n % 10) as u8]);
        assert(dec_digits(dec_val(digits)) =~= digits);
    }
}

// ---------------------------------------------------------------------------
// Specification-level encoder
// ---------------------------------------------------------------------------

/// The bencode encoding of a value, with dictionary entries emitted in the
/// order they are stored.
pub open spec fn spec_encode(v: BencodeModel) -> Seq<u8>
    decreases v, 0int,
{
    match v {
        BencodeModel::Str(s) => dec_digits(s.len()) + seq![B_COLON] + s,
        BencodeModel::Int(i) => seq![B_INT] + int_digits(i) + seq![B_END],
        BencodeModel::List(l) => seq![B_LIST] + spec_encode_seq(l) + seq![B_END],
        BencodeModel::Dict(d) => seq![B_DICT] + spec_encode_entries(d) + seq![B_END],
    }
}

pub open spec fn spec_encode_seq(l: Seq<BencodeModel>) -> Seq<u8>
    decreases l, 1int,
{
    if l.len() == 0 {
        Seq::empty()
    } else {
        spec_encode(l[0]) + spec_encode_seq(l.drop_first())
    }
}

pub open spec fn spec_encode_entries(d: Seq<(Seq<u8>, BencodeModel)>) -> Seq<u8>
    decreases d, 1int,
{
    if d.len() == 0 {
        Seq::empty()
    } else {
        dec_digits(d[0].0.len()) + seq![B_COLON] + d[0].0 + spec_encode(d[0].1)
            + spec_encode_entries(d.drop_first())
    }
}

/// Every integer in the value fits in an `i64`, so the value is encodable
/// by this library and decodable by its parser.
pub open spec fn enc_ok(v: BencodeModel) -> bool
    decreases v, 0int,
{
    match v {
        BencodeModel::Str(_) => true,
        BencodeModel::Int(i) => i64::MIN <= i <= i64::MAX,
        BencodeModel::List(l) => enc_ok_seq(l),
        BencodeModel::Dict(d) => enc_ok_entries(d),
    }
}

pub open spec fn enc_ok_seq(l: Seq<BencodeModel>) -> bool
    decreases l, 1int,
{
    if l.len() == 0 {
        true
    } else {
        enc_ok(l[0]) && enc_ok_seq(l.drop_first())
    }
}

pub open spec fn enc_ok_entries(d: Seq<(Seq<u8>, BencodeModel)>) -> bool
    decreases d, 1int,
{
    if d.len() == 0 {
        true
    } else {
        enc_ok(d[0].1) && enc_ok_entries(d.drop_first())
    }
}

// ---------------------------------------------------------------------------
// Parse errors
// ---------------------------------------------------------------------------

/// The kind of structural fault found while parsing.
#[derive(Debug, Clone, Copy, PartialEq, Eq, Structural)]
pub enum ParseErrorKind {
    /// The data ended before a complete value was read.
    UnexpectedEnd,
    /// A value started with a byte that opens no bencode form.
    BadPrefix,
    /// An integer was empty, had a forbidden leading zero or minus-zero
    /// form, a stray byte before its end marker, or exceeded 64 bits.
    BadInteger,
    /// A byte-string length was malformed.
    BadLength,
    /// A dictionary key was not a byte-string.
    NonStringKey,
    /// A list, dictionary, or integer was not terminated.
    Unterminated,
}

/// A structural parse fault and the byte offset at which it was found.
#[derive(Debug, Clone, Copy, PartialEq, Eq, Structural)]
pub struct ParseError {
    pub kind: ParseErrorKind,
    pub offset: usize,
}

pub open spec fn perr(kind: ParseErrorKind, offset: int) -> ParseError {
    ParseError { kind, offset: offset as usize }
}

// ---------------------------------------------------------------------------
// Specification-level parser
// ---------------------------------------------------------------------------

/// The first position at or after `i` that does not hold a decimal digit.
pub open spec fn digits_end(b: Seq<u8>, i: int) -> int
    decreases b.len() - i,
{
    if i < 0 || i >= b.len() {
        i
    } else if is_digit(b[i]) {
        digits_end(b, i + 1)
    } else {
        i
    }
}

/// Parse an integer form `i<digits>e` starting at `pos` (which holds `i`).
/// Strict: at least one digit, no leading zero on a non-zero value, no
/// minus-zero, and the value must fit in an `i64`.
pub open spec fn spec_parse_int(b: Seq<u8>, pos: int) -> Result<(BencodeModel, int), ParseError> {
    let neg = pos + 1 < b.len() && b[pos + 1] == B_MINUS;
    let ds = if neg {
        pos + 2
    } else {
        pos + 1
    };
    let de = digits_end(b, ds);
    if de >= b.len() {
        Err(perr(ParseErrorKind::Unterminated, pos))
    } else if b[de] != B_END {
        Err(perr(ParseErrorKind::BadInteger, de))
    } else if de == ds {
        Err(perr(ParseErrorKind::BadInteger, ds))
    } else if b[ds] == B_ZERO && (de - ds > 1 || neg) {
        Err(perr(ParseErrorKind::BadInteger, ds))
    } else {
        let m = dec_val(b.subrange(ds, de)) as int;
        let val = if neg {
            -m
        } else {
            m
        };
        if val < i64::MIN || val > i64::MAX {
            Err(perr(ParseErrorKind::BadInteger, ds))
        } else {
            Ok((BencodeModel::Int(val), de + 1))
        }
    }
}

/// Parse a byte-string form `<digits>:<bytes>` starting at `pos` (which
/// holds a digit). Strict: no leading zero on a non-zero length.
pub open spec fn spec_parse_str(b: Seq<u8>, pos: int) -> Result<(BencodeModel, int), ParseError> {
    let de = digits_end(b, pos);
    if de >= b.len() {
        Err(perr(ParseErrorKind::Unterminated, pos))
    } else if b[de] != B_COLON {
        Err(perr(ParseErrorKind::BadLength, de))
    } else if b[pos] == B_ZERO && de - pos > 1 {
        Err(perr(ParseErrorKind::BadLength, pos))
    } else {
        let n = dec_val(b.subrange(pos, de)) as int;
        if de + 1 + n > b.len() {
            Err(perr(ParseErrorKind::UnexpectedEnd, de))
        } else {
            Ok((BencodeModel::Str(b.subrange(de + 1, de + 1 + n)), de + 1 + n))
        }
    }
}

/// Parse one bencoded value starting at `pos`; on success the returned
/// position is just past the value.
pub open spec fn spec_parse(b: Seq<u8>, pos: int) -> Result<(BencodeModel, int), ParseError>
    decreases b.len() - pos, 0int,
{
    if pos < 0 || pos >= b.len() {
        Err(perr(ParseErrorKind::UnexpectedEnd, pos))
    } else if b[pos] == B_INT {
        spec_parse_int(b, pos)
    } else if is_digit(b[pos]) {
        spec_parse_str(b, pos)
    } else if b[pos] == B_LIST {
        match spec_parse_items(b, pos + 1) {
            Ok((l, p)) => Ok((BencodeModel::List(l), p)),
            Err(e) => Err(e),
        }
    } else if b[pos] == B_DICT {
        match spec_parse_entries(b, pos + 1) {
            Ok((d, p)) => Ok((BencodeModel::Dict(d), p)),
            Err(e) => Err(e),
        }
    } else {
        Err(perr(ParseErrorKind::BadPrefix, pos))
    }
}

/// Parse list items up to and including the closing `e`.
pub open spec fn spec_parse_items(b: Seq<u8>, pos: int) -> Result<
    (Seq<BencodeModel>, int),
    ParseError,
>
    decreases b.len() - pos, 1int,
{
    if pos < 0 || pos >= b.len() {
        Err(perr(ParseErrorKind::Unterminated, pos))
    } else if b[pos] == B_END {
        Ok((Seq::empty(), pos + 1))
    } else {
        match spec_parse(b, pos) {
            Err(e) => Err(e),
            Ok((v, p2)) => if pos < p2 <= b.len() {
                match spec_parse_items(b, p2) {
                    Ok((l, p3)) => Ok((seq![v] + l, p3)),
                    Err(e) => Err(e),
                }
            } else {
                Err(perr(ParseErrorKind::Unterminated, pos))
            },
        }
    }
}

/// Parse dictionary entries up to and including the closing `e`.
pub open spec fn spec_parse_entries(b: Seq<u8>, pos: int) -> Result<
    (Seq<(Seq<u8>, BencodeModel)>, int),
    ParseError,
>
    decreases b.len() - pos, 1int,
{
    if pos < 0 || pos >= b.len() {
        Err(perr(ParseErrorKind::Unterminated, pos))
    } else if b[pos] == B_END {
        Ok((Seq::empty(), pos + 1))
    } else {
        match spec_parse(b, pos) {
            Err(e) => Err(e),
            Ok((k, p2)) => match k {
                BencodeModel::Str(ks) => if pos < p2 <= b.len() {
                    match spec_parse(b, p2) {
                        Err(e) => Err(e),
                        Ok((v, p3)) => if p2 < p3 <= b.len() {
                            match spec_parse_entries(b, p3) {
                                Ok((d, p4)) => Ok((seq![(ks, v)] + d, p4)),
                                Err(e) => Err(e),
                            }
                        } else {
                            Err(perr(ParseErrorKind::Unterminated, p2))
                        },
                    }
                } else {
                    Err(perr(ParseErrorKind::Unterminated, pos))
                },
                _ => Err(perr(ParseErrorKind::NonStringKey, pos)),
            },
        }
    }
}

// ---------------------------------------------------------------------------
// Key order and canonical form
// ---------------------------------------------------------------------------

/// Strict lexicographic order on byte-strings.
pub open spec fn lex_lt(a: Seq<u8>, b: Seq<u8>) -> bool
    decreases a.len(),
{
    if b.len() == 0 {
        false
    } else if a.len() == 0 {
        true
    } else if a[0] < b[0] {
        true
    } else if a[0] > b[0] {
        false
    } else {
        lex_lt(a.drop_first(), b.drop_first())
    }
}

/// Keys strictly ascend, so they are also distinct.
pub open spec fn sorted_keys<V>(d: Seq<(Seq<u8>, V)>) -> bool {
    forall|i: int, j: int| 0 <= i < j < d.len() ==> lex_lt(d[i].0, d[j].0)
}

/// Every dictionary in the value has strictly ascending keys: the value is
/// in the canonical form that re-encodes to the very bytes it came from.
pub open spec fn canonical(v: BencodeModel) -> bool
    decreases v, 0int,
{
    match v {
        BencodeModel::Str(_) => true,
        BencodeModel::Int(_) => true,
        BencodeModel::List(l) => canonical_seq(l),
        BencodeModel::Dict(d) => sorted_keys(d) && canonical_entries(d),
    }
}

pub open spec fn canonical_seq(l: Seq<BencodeModel>) -> bool
    decreases l, 1int,
{
    if l.len() == 0 {
        true
    } else {
        canonical(l[0]) && canonical_seq(l.drop_first())
    }
}

pub open spec fn canonical_entries(d: Seq<(Seq<u8>, BencodeModel)>) -> bool
    decreases d, 1int,
{
    if d.len() == 0 {
        true
    } else {
        canonical(d[0].1) && canonical_entries(d.drop_first())
    }
}

/// Insert a keyed element into a key-sorted sequence, before the first
/// element whose key is not below the new key.
pub open spec fn insert_by_key<V>(e: (Seq<u8>, V), d: Seq<(Seq<u8>, V)>) -> Seq<(Seq<u8>, V)>
    decreases d.len(),
{
    if d.len() == 0 {
        seq![e]
    } else if lex_lt(d[0].0, e.0) {
        seq![d[0]] + insert_by_key(e, d.drop_first())
    } else {
        seq![e] + d
    }
}

/// Insertion sort of keyed elements by ascending key.
pub open spec fn sort_by_key<V>(d: Seq<(Seq<u8>, V)>) -> Seq<(Seq<u8>, V)>
    decreases d.len(),
{
    if d.len() == 0 {
        d
    } else {
        insert_by_key(d[0], sort_by_key(d.drop_first()))
    }
}

/// The canonical form of a value: every dictionary's entries sorted by key.
pub open spec fn canon(v: BencodeModel) -> BencodeModel
    decreases v, 0int,
{
    match v {
        BencodeModel::Str(s) => BencodeModel::Str(s),
        BencodeModel::Int(i) => BencodeModel::Int(i),
        BencodeModel::List(l) => BencodeModel::List(canon_map_seq(l)),
        BencodeModel::Dict(d) => BencodeModel::Dict(sort_by_key(canon_map_entries(d))),
    }
}

/// Canonicalize each element of a list, keeping the order.
pub open spec fn canon_map_seq(l: Seq<BencodeModel>) -> Seq<BencodeModel>
    decreases l, 1int,
{
    Seq::new(
        l.len(),
        |i: int|
            if 0 <= i < l.len() {
                canon(l[i])
            } else {
                BencodeModel::Int(0)
            },
    )
}

/// Canonicalize each entry's value, keeping keys and order.
pub open spec fn canon_map_entries(d: Seq<(Seq<u8>, BencodeModel)>) -> Seq<
    (Seq<u8>, BencodeModel),
>
    decreases d, 1int,
{
    Seq::new(
        d.len(),
        |i: int|
            if 0 <= i < d.len() {
                (d[i].0, canon(d[i].1))
            } else {
                (Seq::empty(), BencodeModel::Int(0))
            },
    )
}

// ---------------------------------------------------------------------------
// Executable parser
// ---------------------------------------------------------------------------

/// The models of a sequence of executable values, elementwise.
pub open spec fn models_of(s: Seq<BencodeValue>) -> Seq<BencodeModel> {
    Seq::new(
        s.len(),
        |i: int|
            if 0 <= i < s.len() {
                s[i].model()
            } else {
                BencodeModel::Int(0)
            },
    )
}

/// The models of a sequence of executable dictionary entries, elementwise.
pub open spec fn entry_models_of(s: Seq<(Vec<u8>, BencodeValue)>) -> Seq<(Seq<u8>, BencodeModel)> {
    Seq::new(
        s.len(),
        |i: int|
            if 0 <= i < s.len() {
                (s[i].0@, s[i].1.model())
            } else {
                (Seq::empty(), BencodeModel::Int(0))
            },
    )
}

/// Prepend already-parsed items to the outcome of parsing the rest.
pub open spec fn items_cont(
    prefix: Seq<BencodeModel>,
    r: Result<(Seq<BencodeModel>, int), ParseError>,
) -> Result<(Seq<BencodeModel>, int), ParseError> {
    match r {
        Ok((l, p)) => Ok((prefix + l, p)),
        Err(e) => Err(e),
    }
}

/// Prepend already-parsed entries to the outcome of parsing the rest.
pub open spec fn entries_cont(
    prefix: Seq<(Seq<u8>, BencodeModel)>,
    r: Result<(Seq<(Seq<u8>, BencodeModel)>, int), ParseError>,
) -> Result<(Seq<(Seq<u8>, BencodeModel)>, int), ParseError> {
    match r {
        Ok((d, p)) => Ok((prefix + d, p)),
        Err(e) => Err(e),
    }
}

proof fn lemma_digits_end_bounds(b: Seq<u8>, i: int)
    requires
        0 <= i <= b.len(),
    ensures
        i <= digits_end(b, i) <= b.len(),
        forall|k: int| i <= k < digits_end(b, i) ==> is_digit(#[trigger] b[k]),
        digits_end(b, i) < b.len() ==> !is_digit(b[digits_end(b, i)]),
    decreases b.len() - i,
{
    if i < b.len() && is_digit(b[i]) {
        lemma_digits_end_bounds(b, i + 1);
    }
}

/// A streaming cursor over a bencoded byte slice.
pub struct BencodeParser<'a> {
    data: &'a [u8],
    position: usize,
}

impl<'a> BencodeParser<'a> {
    /// The bytes being parsed.
    pub closed spec fn bytes(self) -> Seq<u8> {
        self.data@
    }

    /// The current cursor position.
    pub closed spec fn pos(self) -> int {
        self.position as int
    }

    /// The cursor never points past the end of the data.
    pub closed spec fn wf(self) -> bool {
        self.position <= self.data@.len()
    }

    pub fn new(data: &'a [u8]) -> (p: Self)
        ensures
            p.wf(),
            p.bytes() == data@,
            p.pos() == 0,
    {
        BencodeParser { data, position: 0 }
    }

    /// Advance over a run of decimal digits, returning its value, or a flag
    /// when the value exceeds `u64::MAX`.
    fn scan_digits(&mut self) -> (r: (u64, bool))
        requires
            old(self).wf(),
        ensures
            final(self).wf(),
            final(self).bytes() == old(self).bytes(),
            final(self).pos() == digits_end(old(self).bytes(), old(self).pos()),
            old(self).pos() <= final(self).pos(),
            !r.1 ==> r.0 as nat == dec_val(
                old(self).bytes().subrange(old(self).pos(), final(self).pos()),
            ),
            r.1 ==> dec_val(old(self).bytes().subrange(old(self).pos(), final(self).pos()))
                > u64::MAX,
    {
        let ghost b = self.data@;
        let ghost start = self.position as int;
        let mut mag: u128 = 0;
        let mut too_big: bool = false;
        proof {
            assert(b.subrange(start, start) =~= Seq::<u8>::empty());
        }
        while self.position < self.data.len() && self.data[self.position] >= B_ZERO
            && self.data[self.position] <= B_NINE
            invariant
                self.wf(),
                self.bytes() == b,
                0 <= start <= self.pos() <= b.len(),
                digits_end(b, start) == digits_end(b, self.pos()),
                !too_big ==> mag == dec_val(b.subrange(start, self.pos())),
                too_big ==> dec_val(b.subrange(start, self.pos())) > u64::MAX,
            decreases b.len() - self.pos(),
        {
            let ghost j = self.position as int;
            let d: u8 = self.data[self.position] - B_ZERO;
            proof {
                assert(b.subrange(start, j + 1).drop_last() =~= b.subrange(start, j));
                assert(b.subrange(start, j + 1).last() == b[j]);
            }
            if too_big || mag > u64::MAX as u128 {
                proof {
                    assert(dec_val(b.subrange(start, j + 1)) == dec_val(b.subrange(start, j)) * 10
                        + d);
                    assert(dec_val(b.subrange(start, j)) * 10 + d > u64::MAX) by (nonlinear_arith)
                        requires
                            dec_val(b.subrange(start, j)) > u64::MAX,
                            d >= 0,
                    ;
                }
                too_big = true;
            } else {
                proof {
                    assert(dec_val(b.subrange(start, j + 1)) == dec_val(b.subrange(start, j)) * 10
                        + d);
                }
                mag = mag * 10 + d as u128;
            }
            self.position = self.position + 1;
        }
        if too_big || mag > u64::MAX as u128 {
            (0, true)
        } else {
            (mag as u64, false)
        }
    }
}


// ---------------------------------------------------------------------------
// Continuation lemmas for the parsing loops
// ---------------------------------------------------------------------------

proof fn lemma_items_cont_assoc(
    pre: Seq<BencodeModel>,
    m: BencodeModel,
    r: Result<(Seq<BencodeModel>, int), ParseError>,
)
    ensures
        items_cont(pre, items_cont(seq![m], r)) == items_cont(pre + seq![m], r),
{
    match r {
        Ok((l, p)) => {
            assert(pre + (seq![m] + l) =~= (pre + seq![m]) + l);
        },
        Err(_) => {},
    }
}

proof fn lemma_entries_cont_assoc(
    pre: Seq<(Seq<u8>, BencodeModel)>,
    m: (Seq<u8>, BencodeModel),
    r: Result<(Seq<(Seq<u8>, BencodeModel)>, int), ParseError>,
)
    ensures
        entries_cont(pre, entries_cont(seq![m], r)) == entries_cont(pre + seq![m], r),
{
    match r {
        Ok((d, p)) => {
            assert(pre + (seq![m] + d) =~= (pre + seq![m]) + d);
        },
        Err(_) => {},
    }
}

impl<'a> BencodeParser<'a> {
    /// Parse one bencoded value at the cursor. On success the cursor stands
    /// just past the value; the result is exactly what `spec_parse` yields
    /// on these bytes at the old cursor position.
    pub fn parse(&mut self) -> (r: Result<BencodeValue, ParseError>)
        requires
            old(self).wf(),
        ensures
            final(self).wf(),
            final(self).bytes() == old(self).bytes(),
            match r {
                Ok(v) => spec_parse(old(self).bytes(), old(self).pos()) == Result::<
                    (BencodeModel, int),
                    ParseError,
                >::Ok((v.model(), final(self).pos())) && old(self).pos() < final(self).pos()
                    <= old(self).bytes().len(),
                Err(e) => spec_parse(old(self).bytes(), old(self).pos()) == Result::<
                    (BencodeModel, int),
                    ParseError,
                >::Err(e),
            },
        decreases old(self).bytes().len() - old(self).pos(), 1int,
    {
        if self.position >= self.data.len() {
            return Err(ParseError { kind: ParseErrorKind::UnexpectedEnd, offset: self.position });
        }
        let c: u8 = self.data[self.position];
        if c == B_INT {
            self.parse_integer()
        } else if c >= B_ZERO && c <= B_NINE {
            self.parse_string()
        } else if c == B_LIST {
            self.parse_list()
        } else if c == B_DICT {
            self.parse_dictionary()
        } else {
            Err(ParseError { kind: ParseErrorKind::BadPrefix, offset: self.position })
        }
    }

    /// Parse `i<digits>e` at the cursor (which holds `i`).
    fn parse_integer(&mut self) -> (r: Result<BencodeValue, ParseError>)
        requires
            old(self).wf(),
            old(self).pos() < old(self).bytes().len(),
            old(self).bytes()[old(self).pos()] == B_INT,
        ensures
            final(self).wf(),
            final(self).bytes() == old(self).bytes(),
            match r {
                Ok(v) => spec_parse_int(old(self).bytes(), old(self).pos()) == Result::<
                    (BencodeModel, int),
                    ParseError,
                >::Ok((v.model(), final(self).pos())) && old(self).pos() < final(self).pos()
                    <= old(self).bytes().len(),
                Err(e) => spec_parse_int(old(self).bytes(), old(self).pos()) == Result::<
                    (BencodeModel, int),
                    ParseError,
                >::Err(e),
            },
    {
        let ghost b = self.data@;
        let ghost p0 = self.position as int;
        proof {
            assert(b.len() == vstd::slice::spec_slice_len(self.data));
        }
        let start_pos = self.position;
        self.position = self.position + 1;
        let neg = self.position < self.data.len() && self.data[self.position] == B_MINUS;
        if neg {
            self.position = self.position + 1;
        }
        let ds = self.position;
        let (mag, too_big) = self.scan_digits();
        let de = self.position;
        proof {
            lemma_digits_end_bounds(b, ds as int);
        }
        if de >= self.data.len() {
            return Err(ParseError { kind: ParseErrorKind::Unterminated, offset: start_pos });
        }
        if self.data[de] != B_END {
            return Err(ParseError { kind: ParseErrorKind::BadInteger, offset: de });
        }
        if de == ds {
            return Err(ParseError { kind: ParseErrorKind::BadInteger, offset: ds });
        }
        if self.data[ds] == B_ZERO && (de - ds > 1 || neg) {
            return Err(ParseError { kind: ParseErrorKind::BadInteger, offset: ds });
        }
        if neg {
            if too_big || mag > 0x8000_0000_0000_0000u64 {
                return Err(ParseError { kind: ParseErrorKind::BadInteger, offset: ds });
            }
            self.position = de + 1;
            let val: i64 = if mag == 0x8000_0000_0000_0000u64 {
                i64::MIN
            } else {
                -(mag as i64)
            };
            Ok(BencodeValue::Integer(val))
        } else {
            if too_big || mag > 0x7fff_ffff_ffff_ffffu64 {
                return Err(ParseError { kind: ParseErrorKind::BadInteger, offset: ds });
            }
            self.position = de + 1;
            Ok(BencodeValue::Integer(mag as i64))
        }
    }

    /// Parse `<digits>:<bytes>` at the cursor (which holds a digit).
    fn parse_string(&mut self) -> (r: Result<BencodeValue, ParseError>)
        requires
            old(self).wf(),
            old(self).pos() < old(self).bytes().len(),
            is_digit(old(self).bytes()[old(self).pos()]),
        ensures
            final(self).wf(),
            final(self).bytes() == old(self).bytes(),
            match r {
                Ok(v) => spec_parse_str(old(self).bytes(), old(self).pos()) == Result::<
                    (BencodeModel, int),
                    ParseError,
                >::Ok((v.model(), final(self).pos())) && old(self).pos() < final(self).pos()
                    <= old(self).bytes().len(),
                Err(e) => spec_parse_str(old(self).bytes(), old(self).pos()) == Result::<
                    (BencodeModel, int),
                    ParseError,
                >::Err(e),
            },
    {
        let ghost b = self.data@;
        let ghost p0 = self.position as int;
        let start_pos = self.position;
        let (mag, too_big) = self.scan_digits();
        let de = self.position;
        proof {
            lemma_digits_end_bounds(b, p0);
        }
        if de >= self.data.len() {
            return Err(ParseError { kind: ParseErrorKind::Unterminated, offset: start_pos });
        }
        if self.data[de] != B_COLON {
            return Err(ParseError { kind: ParseErrorKind::BadLength, offset: de });
        }
        if self.data[start_pos] == B_ZERO && de - start_pos > 1 {
            return Err(ParseError { kind: ParseErrorKind::BadLength, offset: start_pos });
        }
        let content_start = de + 1;
        let remaining = self.data.len() - content_start;
        if too_big || mag > remaining as u64 {
            return Err(ParseError { kind: ParseErrorKind::UnexpectedEnd, offset: de });
        }
        let n = mag as usize;
        let content = vstd::slice::slice_to_vec(
            vstd::slice::slice_subrange(self.data, content_start, content_start + n),
        );
        self.position = content_start + n;
        Ok(BencodeValue::String(content))
    }

    /// Parse `l<values>e` at the cursor (which holds `l`).
    #[verifier::loop_isolation(false)]
    fn parse_list(&mut self) -> (r: Result<BencodeValue, ParseError>)
        requires
            old(self).wf(),
            old(self).pos() < old(self).bytes().len(),
            old(self).bytes()[old(self).pos()] == B_LIST,
        ensures
            final(self).wf(),
            final(self).bytes() == old(self).bytes(),
            match r {
                Ok(v) => spec_parse(old(self).bytes(), old(self).pos()) == Result::<
                    (BencodeModel, int),
                    ParseError,
                >::Ok((v.model(), final(self).pos())) && old(self).pos() < final(self).pos()
                    <= old(self).bytes().len(),
                Err(e) => spec_parse(old(self).bytes(), old(self).pos()) == Result::<
                    (BencodeModel, int),
                    ParseError,
                >::Err(e),
            },
        decreases old(self).bytes().len() - old(self).pos(), 0int,
    {
        let ghost b = self.data@;
        let ghost p0 = self.position as int;
        proof {
            assert(b.len() == vstd::slice::spec_slice_len(self.data));
        }
        self.position = self.position + 1;
        let mut items: Vec<BencodeValue> = Vec::new();
        proof {
            assert(models_of(items@) =~= Seq::<BencodeModel>::empty());
            assert(spec_parse_items(b, p0 + 1) == items_cont(
                models_of(items@),
                spec_parse_items(b, p0 + 1),
            ));
        }
        loop
            invariant
                self.wf(),
                self.bytes() == b,
                0 <= p0,
                p0 + 1 <= self.pos() <= b.len(),
                b[p0] == B_LIST,
                spec_parse_items(b, p0 + 1) == items_cont(
                    models_of(items@),
                    spec_parse_items(b, self.pos()),
                ),
            decreases b.len() - self.pos(),
        {
            if self.position >= self.data.len() {
                proof {
                    assert(spec_parse_items(b, self.pos()) == Result::<
                        (Seq<BencodeModel>, int),
                        ParseError,
                    >::Err(perr(ParseErrorKind::Unterminated, self.pos())));
                }
                return Err(
                    ParseError { kind: ParseErrorKind::Unterminated, offset: self.position },
                );
            }
            if self.data[self.position] == B_END {
                proof {
                    assert(spec_parse_items(b, self.pos()) == Result::<
                        (Seq<BencodeModel>, int),
                        ParseError,
                    >::Ok((Seq::empty(), self.pos() + 1)));
                    assert(models_of(items@) + Seq::<BencodeModel>::empty() =~= models_of(
                        items@,
                    ));
                }
                self.position = self.position + 1;
                let res = BencodeValue::List(items);
                proof {
                    assert(res.model() is List);
                    assert(res.model()->List_0 =~= models_of(res->List_0@));
                }
                return Ok(res);
            }
            let ghost cur = self.pos();
            let ghost pre = models_of(items@);
            match self.parse() {
                Err(e) => {
                    proof {
                        assert(spec_parse_items(b, cur) == Result::<
                            (Seq<BencodeModel>, int),
                            ParseError,
                        >::Err(e));
                    }
                    return Err(e);
                },
                Ok(v) => {
                    let ghost m = v.model();
                    proof {
                        let rest = spec_parse_items(b, self.pos());
                        assert(spec_parse_items(b, cur) == items_cont(seq![m], rest));
                        lemma_items_cont_assoc(pre, m, rest);
                    }
                    items.push(v);
                    proof {
                        assert(models_of(items@) =~= pre + seq![m]);
                    }
                },
            }
        }
    }

    /// Parse `d<key><value>...e` at the cursor (which holds `d`).
    #[verifier::loop_isolation(false)]
    fn parse_dictionary(&mut self) -> (r: Result<BencodeValue, ParseError>)
        requires
            old(self).wf(),
            old(self).pos() < old(self).bytes().len(),
            old(self).bytes()[old(self).pos()] == B_DICT,
        ensures
            final(self).wf(),
            final(self).bytes() == old(self).bytes(),
            match r {
                Ok(v) => spec_parse(old(self).bytes(), old(self).pos()) == Result::<
                    (BencodeModel, int),
                    ParseError,
                >::Ok((v.model(), final(self).pos())) && old(self).pos() < final(self).pos()
                    <= old(self).bytes().len(),
                Err(e) => spec_parse(old(self).bytes(), old(self).pos()) == Result::<
                    (BencodeModel, int),
                    ParseError,
                >::Err(e),
            },
        decreases old(self).bytes().len() - old(self).pos(), 0int,
    {
        let ghost b = self.data@;
        let ghost p0 = self.position as int;
        proof {
            assert(b.len() == vstd::slice::spec_slice_len(self.data));
        }
        self.position = self.position + 1;
        let mut entries: Vec<(Vec<u8>, BencodeValue)> = Vec::new();
        proof {
            assert(entry_models_of(entries@) =~= Seq::<(Seq<u8>, BencodeModel)>::empty());
            assert(spec_parse_entries(b, p0 + 1) == entries_cont(
                entry_models_of(entries@),
                spec_parse_entries(b, p0 + 1),
            ));
        }
        loop
            invariant
                self.wf(),
                self.bytes() == b,
                0 <= p0,
                p0 + 1 <= self.pos() <= b.len(),
                b[p0] == B_DICT,
                spec_parse_entries(b, p0 + 1) == entries_cont(
                    entry_models_of(entries@),
                    spec_parse_entries(b, self.pos()),
                ),
            decreases b.len() - self.pos(),
        {
            if self.position >= self.data.len() {
                proof {
                    assert(spec_parse_entries(b, self.pos()) == Result::<
                        (Seq<(Seq<u8>, BencodeModel)>, int),
                        ParseError,
                    >::Err(perr(ParseErrorKind::Unterminated, self.pos())));
                }
                return Err(
                    ParseError { kind: ParseErrorKind::Unterminated, offset: self.position },
                );
            }
            if self.data[self.position] == B_END {
                proof {
                    assert(spec_parse_entries(b, self.pos()) == Result::<
                        (Seq<(Seq<u8>, BencodeModel)>, int),
                        ParseError,
                    >::Ok((Seq::empty(), self.pos() + 1)));
                    assert(entry_models_of(entries@) + Seq::<(Seq<u8>, BencodeModel)>::empty()
                        =~= entry_models_of(entries@));
                }
                self.position = self.position + 1;
                let res = BencodeValue::Dictionary(entries);
                proof {
                    assert(res.model() is Dict);
                    assert(res.model()->Dict_0 =~= entry_models_of(res->Dictionary_0@));
                }
                return Ok(res);
            }
            let ghost cur = self.pos();
            let ghost pre = entry_models_of(entries@);
            let key_pos = self.position;
            let key: Vec<u8> = match self.parse() {
                Err(e) => {
                    proof {
                        assert(spec_parse_entries(b, cur) == Result::<
                            (Seq<(Seq<u8>, BencodeModel)>, int),
                            ParseError,
                        >::Err(e));
                    }
                    return Err(e);
                },
                Ok(kv) => match kv {
                    BencodeValue::String(ks) => ks,
                    _ => {
                        proof {
                            assert(!(kv.model() is Str));
                            assert(spec_parse_entries(b, cur) == Result::<
                                (Seq<(Seq<u8>, BencodeModel)>, int),
                                ParseError,
                            >::Err(perr(ParseErrorKind::NonStringKey, cur)));
                        }
                        return Err(
                            ParseError { kind: ParseErrorKind::NonStringKey, offset: key_pos },
                        );
                    },
                },
            };
            let ghost p2 = self.pos();
            let value: BencodeValue = match self.parse() {
                Err(e) => {
                    proof {
                        assert(spec_parse_entries(b, cur) == Result::<
                            (Seq<(Seq<u8>, BencodeModel)>, int),
                            ParseError,
                        >::Err(e));
                    }
                    return Err(e);
                },
                Ok(v) => v,
            };
            let ghost m = (key@, value.model());
            proof {
                let rest = spec_parse_entries(b, self.pos());
                assert(spec_parse_entries(b, cur) == entries_cont(seq![m], rest));
                lemma_entries_cont_assoc(pre, m, rest);
            }
            entries.push((key, value));
            proof {
                assert(entry_models_of(entries@) =~= pre + seq![m]);
            }
        }
    }
}


// ---------------------------------------------------------------------------
// Executable encoder
// ---------------------------------------------------------------------------

/// Append the bytes of `src` to `dst`.
pub fn push_bytes(dst: &mut Vec<u8>, src: &[u8])
    ensures
        final(dst)@ == old(dst)@ + src@,
{
    let ghost base = dst@;
    let n = src.len();
    let mut i: usize = 0;
    while i < n
        invariant
            n == src@.len(),
            0 <= i <= n,
            dst@ == base + src@.subrange(0, i as int),
        decreases n - i,
    {
        dst.push(src[i]);
        proof {
            assert(base + src@.subrange(0, i as int) + seq![src@[i as int]] =~= base
                + src@.subrange(0, i + 1));
        }
        i = i + 1;
    }
    proof {
        assert(src@.subrange(0, n as int) =~= src@);
    }
}

/// The canonical decimal digits of `n`, as bytes.
pub fn dec_bytes(n: u64) -> (r: Vec<u8>)
    ensures
        r@ == dec_digits(n as nat),
    decreases n,
{
    if n < 10 {
        let mut r: Vec<u8> = Vec::new();
        r.push(B_ZERO + n as u8);
        proof {
            assert(r@ =~= dec_digits(n as nat));
        }
        r
    } else {
        let mut r = dec_bytes(n / 10);
        r.push(B_ZERO + (n % 10) as u8);
        proof {
            assert(dec_digits((n / 10) as nat) + seq![(B_ZERO + (n % 10) as nat) as u8]
                =~= dec_digits(n as nat));
        }
        r
    }
}

proof fn lemma_lex_lt_skip(a: Seq<u8>, b: Seq<u8>, i: int)
    requires
        0 <= i <= a.len(),
        i <= b.len(),
        forall|k: int| 0 <= k < i ==> a[k] == b[k],
    ensures
        lex_lt(a, b) == lex_lt(a.skip(i), b.skip(i)),
    decreases i,
{
    if i == 0 {
        assert(a.skip(0) =~= a);
        assert(b.skip(0) =~= b);
    } else {
        assert(a.len() > 0 && b.len() > 0);
        assert(a[0] == b[0]);
        assert(a.drop_first() =~= a.skip(1));
        assert(b.drop_first() =~= b.skip(1));
        lemma_lex_lt_skip(a.skip(1), b.skip(1), i - 1);
        assert(a.skip(1).skip(i - 1) =~= a.skip(i));
        assert(b.skip(1).skip(i - 1) =~= b.skip(i));
    }
}

/// Compare two byte strings in lexicographic order.
pub fn bytes_lt(a: &[u8], b: &[u8]) -> (r: bool)
    ensures
        r == lex_lt(a@, b@),
{
    let mut i: usize = 0;
    while i < a.len() && i < b.len() && a[i] == b[i]
        invariant
            0 <= i <= a@.len(),
            i <= b@.len(),
            forall|k: int| 0 <= k < i ==> a@[k] == b@[k],
        decreases a@.len() - i,
    {
        i = i + 1;
    }
    proof {
        lemma_lex_lt_skip(a@, b@, i as int);
    }
    if i >= b.len() {
        false
    } else if i >= a.len() {
        true
    } else {
        proof {
            assert(a@.skip(i as int)[0] == a@[i as int]);
            assert(b@.skip(i as int)[0] == b@[i as int]);
        }
        a[i] < b[i]
    }
}

/// The model of a sequence of (key, encoded value) byte pairs.
pub open spec fn pair_models_of(s: Seq<(Vec<u8>, Vec<u8>)>) -> Seq<(Seq<u8>, Seq<u8>)> {
    Seq::new(
        s.len(),
        |i: int|
            if 0 <= i < s.len() {
                (s[i].0@, s[i].1@)
            } else {
                (Seq::empty(), Seq::empty())
            },
    )
}

/// Encode each entry value, keeping its key.
pub open spec fn map_enc(s: Seq<(Seq<u8>, BencodeModel)>) -> Seq<(Seq<u8>, Seq<u8>)> {
    Seq::new(
        s.len(),
        |i: int|
            if 0 <= i < s.len() {
                (s[i].0, spec_encode(s[i].1))
            } else {
                (Seq::empty(), Seq::empty())
            },
    )
}

proof fn lemma_insert_map_enc(e: (Seq<u8>, BencodeModel), s: Seq<(Seq<u8>, BencodeModel)>)
    ensures
        insert_by_key((e.0, spec_encode(e.1)), map_enc(s)) == map_enc(insert_by_key(e, s)),
    decreases s.len(),
{
    let ep = (e.0, spec_encode(e.1));
    if s.len() == 0 {
        assert(insert_by_key(ep, map_enc(s)) =~= map_enc(insert_by_key(e, s)));
    } else {
        assert(map_enc(s)[0] == (s[0].0, spec_encode(s[0].1)));
        if lex_lt(s[0].0, e.0) {
            assert(map_enc(s).drop_first() =~= map_enc(s.drop_first()));
            lemma_insert_map_enc(e, s.drop_first());
            assert(insert_by_key(ep, map_enc(s)) == seq![map_enc(s)[0]] + insert_by_key(
                ep,
                map_enc(s).drop_first(),
            ));
            assert(insert_by_key(e, s) == seq![s[0]] + insert_by_key(e, s.drop_first()));
            assert(seq![map_enc(s)[0]] + map_enc(insert_by_key(e, s.drop_first())) =~= map_enc(
                seq![s[0]] + insert_by_key(e, s.drop_first()),
            ));
        } else {
            assert(insert_by_key(ep, map_enc(s)) == seq![ep] + map_enc(s));
            assert(insert_by_key(e, s) == seq![e] + s);
            assert(seq![ep] + map_enc(s) =~= map_enc(seq![e] + s));
        }
    }
}

proof fn lemma_sort_map_enc(s: Seq<(Seq<u8>, BencodeModel)>)
    ensures
        sort_by_key(map_enc(s)) == map_enc(sort_by_key(s)),
    decreases s.len(),
{
    if s.len() == 0 {
        assert(sort_by_key(map_enc(s)) =~= map_enc(sort_by_key(s)));
    } else {
        assert(map_enc(s).drop_first() =~= map_enc(s.drop_first()));
        lemma_sort_map_enc(s.drop_first());
        assert(map_enc(s)[0] == (s[0].0, spec_encode(s[0].1)));
        lemma_insert_map_enc(s[0], sort_by_key(s.drop_first()));
    }
}

proof fn lemma_insert_at<V>(e: (Seq<u8>, V), s: Seq<(Seq<u8>, V)>, j: int)
    requires
        0 <= j <= s.len(),
        forall|m: int| 0 <= m < j ==> lex_lt(#[trigger] s[m].0, e.0),
        j < s.len() ==> !lex_lt(s[j].0, e.0),
    ensures
        insert_by_key(e, s) == s.take(j) + seq![e] + s.skip(j),
    decreases j,
{
    if j == 0 {
        if s.len() == 0 {
            assert(insert_by_key(e, s) =~= s.take(0) + seq![e] + s.skip(0));
        } else {
            assert(insert_by_key(e, s) == seq![e] + s);
            assert(seq![e] + s =~= s.take(0) + seq![e] + s.skip(0));
        }
    } else {
        assert(lex_lt(s[0].0, e.0));
        let t = s.drop_first();
        assert(forall|m: int| 0 <= m < j - 1 ==> #[trigger] t[m].0 == s[m + 1].0);
        lemma_insert_at(e, t, j - 1);
        assert(insert_by_key(e, s) == seq![s[0]] + insert_by_key(e, t));
        assert(seq![s[0]] + (t.take(j - 1) + seq![e] + t.skip(j - 1)) =~= s.take(j) + seq![e]
            + s.skip(j));
    }
}

/// Insert a (key, bytes) pair before the first entry whose key is not below
/// its key, keeping the vector sorted by key.
fn insert_pair(acc: &mut Vec<(Vec<u8>, Vec<u8>)>, e: (Vec<u8>, Vec<u8>))
    ensures
        pair_models_of(final(acc)@) == insert_by_key((e.0@, e.1@), pair_models_of(old(acc)@)),
{
    let ghost s = pair_models_of(acc@);
    let ghost em = (e.0@, e.1@);
    let mut j: usize = 0;
    while j < acc.len() && bytes_lt(vstd::slice::slice_index_get(acc.as_slice(), j).0.as_slice(), e.0.as_slice())
        invariant
            0 <= j <= acc@.len(),
            s == pair_models_of(acc@),
            em == (e.0@, e.1@),
            forall|m: int| 0 <= m < j ==> lex_lt(#[trigger] s[m].0, em.0),
        decreases acc@.len() - j,
    {
        j = j + 1;
    }
    proof {
        lemma_insert_at(em, s, j as int);
    }
    acc.insert(j, e);
    proof {
        assert(pair_models_of(acc@) =~= s.take(j as int) + seq![em] + s.skip(j as int));
    }
}


/// Entry models with canonical values, in stored order.
pub open spec fn canon_entry_models(d: Seq<(Vec<u8>, BencodeValue)>) -> Seq<
    (Seq<u8>, BencodeModel),
> {
    Seq::new(
        d.len(),
        |i: int|
            if 0 <= i < d.len() {
                (d[i].0@, canon(d[i].1.model()))
            } else {
                (Seq::empty(), BencodeModel::Int(0))
            },
    )
}

/// Encode a value as bencode bytes. Dictionary keys are emitted in
/// ascending lexicographic byte order, so the output is canonical whatever
/// order the entries are stored in.
#[verifier::loop_isolation(false)]
pub fn bencode_encode(value: &BencodeValue) -> (r: Vec<u8>)
    ensures
        r@ == spec_encode(canon(value.model())),
    decreases value,
{
    match value {
        BencodeValue::String(s) => {
            let mut r = dec_bytes(s.len() as u64);
            r.push(B_COLON);
            push_bytes(&mut r, s.as_slice());
            proof {
                assert(dec_digits(s@.len()).push(B_COLON) + s@ =~= dec_digits(s@.len()) + seq![
                    B_COLON,
                ] + s@);
            }
            r
        },
        BencodeValue::Integer(i) => {
            let mut r: Vec<u8> = Vec::new();
            r.push(B_INT);
            if *i < 0 {
                r.push(B_MINUS);
                let mag: u64 = (-(*i as i128)) as u64;
                let db = dec_bytes(mag);
                push_bytes(&mut r, db.as_slice());
                proof {
                    assert(mag as nat == (-(*i as int)) as nat);
                    assert(Seq::<u8>::empty().push(B_INT).push(B_MINUS) + dec_digits(mag as nat)
                        =~= seq![B_INT] + int_digits(*i as int));
                }
            } else {
                let db = dec_bytes(*i as u64);
                push_bytes(&mut r, db.as_slice());
                proof {
                    assert(Seq::<u8>::empty().push(B_INT) + dec_digits((*i as u64) as nat) =~= seq![
                        B_INT,
                    ] + int_digits(*i as int));
                }
            }
            r.push(B_END);
            proof {
                assert((seq![B_INT] + int_digits(*i as int)).push(B_END) =~= seq![B_INT]
                    + int_digits(*i as int) + seq![B_END]);
            }
            r
        },
        BencodeValue::List(l) => {
            let ghost cl = canon(value.model())->List_0;
            proof {
                assert(cl.len() == l@.len());
                assert(forall|k: int|
                    0 <= k < l@.len() ==> cl[k] == canon(#[trigger] l@[k].model()));
            }
            let mut r: Vec<u8> = Vec::new();
            r.push(B_LIST);
            proof {
                assert(Seq::<u8>::empty().push(B_LIST) =~= seq![B_LIST]);
                assert(cl.skip(0) =~= cl);
            }
            let n = l.len();
            let mut i: usize = 0;
            while i < n
                invariant
                    0 <= i <= n,
                    r@ + spec_encode_seq(cl.skip(i as int)) == seq![B_LIST] + spec_encode_seq(cl),
                decreases n - i,
            {
                let ghost r0 = r@;
                let child = bencode_encode(vstd::slice::slice_index_get(l.as_slice(), i));
                push_bytes(&mut r, child.as_slice());
                proof {
                    let rest = cl.skip(i as int);
                    assert(rest[0] == cl[i as int]);
                    assert(rest.drop_first() =~= cl.skip(i as int + 1));
                    assert(spec_encode_seq(rest) == spec_encode(cl[i as int]) + spec_encode_seq(
                        cl.skip(i as int + 1),
                    ));
                    assert(r@ + spec_encode_seq(cl.skip(i as int + 1)) =~= r0 + spec_encode_seq(
                        rest,
                    ));
                }
                i = i + 1;
            }
            proof {
                assert(cl.skip(n as int) =~= Seq::<BencodeModel>::empty());
                assert(spec_encode_seq(Seq::<BencodeModel>::empty()) == Seq::<u8>::empty());
                assert(r@ + Seq::<u8>::empty() =~= r@);
            }
            r.push(B_END);
            proof {
                assert((seq![B_LIST] + spec_encode_seq(cl)).push(B_END) =~= seq![B_LIST]
                    + spec_encode_seq(cl) + seq![B_END]);
            }
            r
        },
        BencodeValue::Dictionary(d) => {
            let ghost ce = canon_entry_models(d@);
            let ghost se = sort_by_key(ce);
            proof {
                let dm = value.model()->Dict_0;
                assert(value.model() == BencodeModel::Dict(dm));
                assert(canon(value.model()) == BencodeModel::Dict(
                    sort_by_key(canon_map_entries(dm)),
                ));
                assert(canon_map_entries(dm) =~= ce);
                assert(canon(value.model()) == BencodeModel::Dict(se));
            }
            let n = d.len();
            let mut pairs: Vec<(Vec<u8>, Vec<u8>)> = Vec::new();
            let mut i: usize = 0;
            while i < n
                invariant
                    0 <= i <= n,
                    pair_models_of(pairs@) == map_enc(ce.take(i as int)),
                decreases n - i,
            {
                let ghost p0 = pair_models_of(pairs@);
                let e = vstd::slice::slice_index_get(d.as_slice(), i);
                let mut k: Vec<u8> = Vec::new();
                push_bytes(&mut k, e.0.as_slice());
                let vb = bencode_encode(&e.1);
                pairs.push((k, vb));
                proof {
                    assert(ce[i as int] == (d@[i as int].0@, canon(d@[i as int].1.model())));
                    assert(pair_models_of(pairs@) =~= p0 + seq![
                        (d@[i as int].0@, spec_encode(ce[i as int].1)),
                    ]);
                    assert(map_enc(ce.take(i as int + 1)) =~= map_enc(ce.take(i as int)) + seq![
                        (ce[i as int].0, spec_encode(ce[i as int].1)),
                    ]);
                }
                i = i + 1;
            }
            let ghost fullp = pair_models_of(pairs@);
            proof {
                assert(ce.take(n as int) =~= ce);
                assert(fullp == map_enc(ce));
                assert(fullp.skip(fullp.len() as int) =~= Seq::<(Seq<u8>, Seq<u8>)>::empty());
                assert(fullp.take(fullp.len() as int) =~= fullp);
            }
            let mut sorted: Vec<(Vec<u8>, Vec<u8>)> = Vec::new();
            while pairs.len() > 0
                invariant
                    pair_models_of(pairs@) == fullp.take(pairs@.len() as int),
                    pairs@.len() <= fullp.len(),
                    pair_models_of(sorted@) == sort_by_key(fullp.skip(pairs@.len() as int)),
                decreases pairs@.len(),
            {
                let ghost k = pairs@.len() - 1;
                let e = match pairs.pop() {
                    Some(e) => e,
                    None => {
                        proof {
                            assert(false);
                        }
                        (Vec::new(), Vec::new())
                    },
                };
                proof {
                    assert(fullp.take(k + 1)[k] == fullp[k]);
                    assert((e.0@, e.1@) == fullp[k]);
                    assert(pair_models_of(pairs@) =~= fullp.take(k));
                    let rest = fullp.skip(k);
                    assert(rest[0] == fullp[k]);
                    assert(rest.drop_first() =~= fullp.skip(k + 1));
                    assert(sort_by_key(rest) == insert_by_key(
                        fullp[k],
                        sort_by_key(fullp.skip(k + 1)),
                    ));
                }
                insert_pair(&mut sorted, e);
            }
            proof {
                assert(fullp.skip(0) =~= fullp);
                lemma_sort_map_enc(ce);
                assert(pair_models_of(sorted@) == map_enc(se));
                assert(se.len() == map_enc(se).len());
            }
            let mut r: Vec<u8> = Vec::new();
            r.push(B_DICT);
            proof {
                assert(Seq::<u8>::empty().push(B_DICT) =~= seq![B_DICT]);
                assert(se.skip(0) =~= se);
            }
            let sn = sorted.len();
            let mut j: usize = 0;
            while j < sn
                invariant
                    0 <= j <= sn,
                    sn == sorted@.len(),
                    r@ + spec_encode_entries(se.skip(j as int)) == seq![B_DICT]
                        + spec_encode_entries(se),
                decreases sn - j,
            {
                let ghost r0 = r@;
                let e = vstd::slice::slice_index_get(sorted.as_slice(), j);
                let kl = dec_bytes(e.0.len() as u64);
                push_bytes(&mut r, kl.as_slice());
                r.push(B_COLON);
                push_bytes(&mut r, e.0.as_slice());
                push_bytes(&mut r, e.1.as_slice());
                proof {
                    assert(pair_models_of(sorted@)[j as int] == (e.0@, e.1@));
                    assert(se[j as int].0 == e.0@ && spec_encode(se[j as int].1) == e.1@);
                    let rest = se.skip(j as int);
                    assert(rest[0] == se[j as int]);
                    assert(rest.drop_first() =~= se.skip(j as int + 1));
                    assert(spec_encode_entries(rest) == dec_digits(se[j as int].0.len()) + seq![
                        B_COLON,
                    ] + se[j as int].0 + spec_encode(se[j as int].1) + spec_encode_entries(
                        se.skip(j as int + 1),
                    ));
                    assert(r@ + spec_encode_entries(se.skip(j as int + 1)) =~= r0
                        + spec_encode_entries(rest));
                }
                j = j + 1;
            }
            proof {
                assert(se.skip(sn as int) =~= Seq::<(Seq<u8>, BencodeModel)>::empty());
                assert(spec_encode_entries(Seq::<(Seq<u8>, BencodeModel)>::empty())
                    == Seq::<u8>::empty());
                assert(r@ + Seq::<u8>::empty() =~= r@);
            }
            r.push(B_END);
            proof {
                assert((seq![B_DICT] + spec_encode_entries(se)).push(B_END) =~= seq![B_DICT]
                    + spec_encode_entries(se) + seq![B_END]);
            }
            r
        },
    }
}


// ---------------------------------------------------------------------------
// Parser soundness: what was parsed re-encodes to the consumed bytes
// ---------------------------------------------------------------------------

proof fn lemma_digits_end_run(b: Seq<u8>, i: int, j: int)
    requires
        0 <= i <= j <= b.len(),
        forall|k: int| i <= k < j ==> is_digit(#[trigger] b[k]),
        j < b.len(),
        !is_digit(b[j]),
    ensures
        digits_end(b, i) == j,
    decreases j - i,
{
    if i < j {
        lemma_digits_end_run(b, i + 1, j);
    }
}

/// Soundness at a byte-string: a parsed string came from its own encoding.
proof fn lemma_parse_sound_str(b: Seq<u8>, pos: int, ks: Seq<u8>, p: int)
    requires
        0 <= pos <= b.len(),
        spec_parse(b, pos) == Result::<(BencodeModel, int), ParseError>::Ok((
            BencodeModel::Str(ks),
            p,
        )),
    ensures
        pos < p <= b.len(),
        spec_encode(BencodeModel::Str(ks)) == b.subrange(pos, p),
{
    assert(pos < b.len());
    assert(is_digit(b[pos]));
    let de = digits_end(b, pos);
    lemma_digits_end_bounds(b, pos);
    let digits = b.subrange(pos, de);
    assert(digits.len() >= 1);
    assert(forall|k: int| 0 <= k < digits.len() ==> is_digit(#[trigger] digits[k]));
    lemma_digits_canonical(digits);
    let n = dec_val(digits) as int;
    assert(ks == b.subrange(de + 1, de + 1 + n));
    assert(ks.len() == n);
    assert(spec_encode(BencodeModel::Str(ks)) == dec_digits(ks.len()) + seq![B_COLON] + ks);
    assert(dec_digits(ks.len()) == digits);
    assert(b[de] == B_COLON);
    assert(digits + seq![B_COLON] + ks =~= b.subrange(pos, de + 1 + n));
}

/// Soundness: a successful parse consumed exactly the encoding of its value,
/// and every integer in the value fits in an `i64`.
pub proof fn lemma_parse_sound(b: Seq<u8>, pos: int, v: BencodeModel, p: int)
    requires
        0 <= pos <= b.len(),
        spec_parse(b, pos) == Result::<(BencodeModel, int), ParseError>::Ok((v, p)),
    ensures
        pos < p <= b.len(),
        spec_encode(v) == b.subrange(pos, p),
        enc_ok(v),
    decreases b.len() - pos, 0int,
{
    assert(pos < b.len());
    if b[pos] == B_INT {
        let neg = pos + 1 < b.len() && b[pos + 1] == B_MINUS;
        let ds = if neg {
            pos + 2
        } else {
            pos + 1
        };
        let de = digits_end(b, ds);
        lemma_digits_end_bounds(b, ds);
        let digits = b.subrange(ds, de);
        assert(digits.len() >= 1);
        assert(forall|k: int| 0 <= k < digits.len() ==> is_digit(#[trigger] digits[k]));
        lemma_digits_canonical(digits);
        let m = dec_val(digits) as int;
        let val = if neg {
            -m
        } else {
            m
        };
        assert(v == BencodeModel::Int(val) && p == de + 1);
        assert(dec_digits(m as nat) == digits);
        if neg {
            assert(m != 0) by {
                if m == 0 {
                    lemma_dec_digits_leading(0);
                    assert(digits[0] == B_ZERO);
                }
            }
            assert(int_digits(val) == seq![B_MINUS] + digits);
            assert(seq![B_INT] + (seq![B_MINUS] + digits) + seq![B_END] =~= b.subrange(
                pos,
                de + 1,
            ));
        } else {
            assert(int_digits(val) == digits);
            assert(seq![B_INT] + digits + seq![B_END] =~= b.subrange(pos, de + 1));
        }
    } else if is_digit(b[pos]) {
        let (vv, pp) = spec_parse(b, pos)->Ok_0;
        assert(vv is Str);
        lemma_parse_sound_str(b, pos, vv->Str_0, pp);
    } else if b[pos] == B_LIST {
        let (l, pp) = spec_parse_items(b, pos + 1)->Ok_0;
        lemma_parse_items_sound(b, pos + 1, l, pp);
        assert(v == BencodeModel::List(l) && p == pp);
        assert(seq![B_LIST] + spec_encode_seq(l) + seq![B_END] =~= b.subrange(pos, pp));
    } else if b[pos] == B_DICT {
        let (d, pp) = spec_parse_entries(b, pos + 1)->Ok_0;
        lemma_parse_entries_sound(b, pos + 1, d, pp);
        assert(v == BencodeModel::Dict(d) && p == pp);
        assert(seq![B_DICT] + spec_encode_entries(d) + seq![B_END] =~= b.subrange(pos, pp));
    }
}

proof fn lemma_parse_items_sound(b: Seq<u8>, pos: int, l: Seq<BencodeModel>, p: int)
    requires
        0 <= pos <= b.len(),
        spec_parse_items(b, pos) == Result::<(Seq<BencodeModel>, int), ParseError>::Ok((l, p)),
    ensures
        pos < p <= b.len(),
        b[p - 1] == B_END,
        spec_encode_seq(l) == b.subrange(pos, p - 1),
        enc_ok_seq(l),
    decreases b.len() - pos, 1int,
{
    assert(pos < b.len());
    if b[pos] == B_END {
        assert(l == Seq::<BencodeModel>::empty() && p == pos + 1);
        assert(spec_encode_seq(l) =~= b.subrange(pos, pos));
    } else {
        let (v, p2) = spec_parse(b, pos)->Ok_0;
        let (l2, p3) = spec_parse_items(b, p2)->Ok_0;
        lemma_parse_sound(b, pos, v, p2);
        lemma_parse_items_sound(b, p2, l2, p3);
        assert(l == seq![v] + l2 && p == p3);
        assert(l[0] == v);
        assert(l.drop_first() =~= l2);
        assert(spec_encode_seq(l) == spec_encode(v) + spec_encode_seq(l2));
        assert(spec_encode(v) + spec_encode_seq(l2) =~= b.subrange(pos, p3 - 1));
        assert(enc_ok_seq(l));
    }
}

proof fn lemma_parse_entries_sound(b: Seq<u8>, pos: int, d: Seq<(Seq<u8>, BencodeModel)>, p: int)
    requires
        0 <= pos <= b.len(),
        spec_parse_entries(b, pos) == Result::<
            (Seq<(Seq<u8>, BencodeModel)>, int),
            ParseError,
        >::Ok((d, p)),
    ensures
        pos < p <= b.len(),
        b[p - 1] == B_END,
        spec_encode_entries(d) == b.subrange(pos, p - 1),
        enc_ok_entries(d),
    decreases b.len() - pos, 1int,
{
    assert(pos < b.len());
    if b[pos] == B_END {
        assert(d == Seq::<(Seq<u8>, BencodeModel)>::empty() && p == pos + 1);
        assert(spec_encode_entries(d) =~= b.subrange(pos, pos));
    } else {
        let (k, p2) = spec_parse(b, pos)->Ok_0;
        let ks = k->Str_0;
        let (v, p3) = spec_parse(b, p2)->Ok_0;
        let (d2, p4) = spec_parse_entries(b, p3)->Ok_0;
        lemma_parse_sound_str(b, pos, ks, p2);
        lemma_parse_sound(b, p2, v, p3);
        lemma_parse_entries_sound(b, p3, d2, p4);
        assert(d == seq![(ks, v)] + d2 && p == p4);
        assert(d[0] == (ks, v));
        assert(d.drop_first() =~= d2);
        assert(spec_encode_entries(d) == dec_digits(ks.len()) + seq![B_COLON] + ks + spec_encode(
            v,
        ) + spec_encode_entries(d2));
        assert(dec_digits(ks.len()) + seq![B_COLON] + ks == b.subrange(pos, p2));
        assert(dec_digits(ks.len()) + seq![B_COLON] + ks + spec_encode(v) + spec_encode_entries(
            d2,
        ) =~= b.subrange(pos, p4 - 1));
        assert(enc_ok_entries(d));
    }
}

// ---------------------------------------------------------------------------
// Parser completeness: an encoding parses back to its value
// ---------------------------------------------------------------------------

proof fn lemma_encode_first_byte(v: BencodeModel)
    ensures
        spec_encode(v).len() >= 1,
        spec_encode(v)[0] == B_INT || is_digit(spec_encode(v)[0]) || spec_encode(v)[0] == B_LIST
            || spec_encode(v)[0] == B_DICT,
        spec_encode(v)[0] != B_END,
{
    match v {
        BencodeModel::Str(str0) => {
            lemma_dec_digits_are_digits(str0.len());
            assert(spec_encode(v)[0] == dec_digits(str0.len())[0]);
        },
        BencodeModel::Int(_) => {
            assert(spec_encode(v)[0] == B_INT);
        },
        BencodeModel::List(_) => {
            assert(spec_encode(v)[0] == B_LIST);
        },
        BencodeModel::Dict(_) => {
            assert(spec_encode(v)[0] == B_DICT);
        },
    }
}

/// Completeness at a byte-string.
proof fn lemma_encode_parse_str(b: Seq<u8>, pos: int, str0: Seq<u8>)
    requires
        0 <= pos,
        pos + spec_encode(BencodeModel::Str(str0)).len() <= b.len(),
        b.subrange(pos, pos + spec_encode(BencodeModel::Str(str0)).len() as int) == spec_encode(
            BencodeModel::Str(str0),
        ),
    ensures
        spec_parse(b, pos) == Result::<(BencodeModel, int), ParseError>::Ok((
            BencodeModel::Str(str0),
            pos + spec_encode(BencodeModel::Str(str0)).len() as int,
        )),
{
    let digits = dec_digits(str0.len());
    let dn = digits.len() as int;
    lemma_dec_digits_are_digits(str0.len());
    assert(spec_encode(BencodeModel::Str(str0)) =~= digits + (seq![B_COLON] + str0));
    lemma_subrange_split(b, pos, digits, seq![B_COLON] + str0);
    lemma_subrange_split(b, pos + dn, seq![B_COLON], str0);
    lemma_subrange_byte(b, pos + dn, B_COLON);
    assert(b.subrange(pos, pos + dn) == digits);
    assert forall|k: int| pos <= k < pos + dn implies is_digit(#[trigger] b[k]) by {
        assert(b.subrange(pos, pos + dn)[k - pos] == digits[k - pos]);
        assert(is_digit(digits[k - pos]));
    }
    assert(!is_digit(B_COLON));
    lemma_digits_end_run(b, pos, pos + dn);
    assert(b[pos] == b.subrange(pos, pos + dn)[0]);
    assert(is_digit(b[pos]));
    assert(b[pos] != B_INT && b[pos] != B_LIST && b[pos] != B_DICT);
    lemma_dec_val_of_digits(str0.len());
    assert(dec_val(b.subrange(pos, pos + dn)) == str0.len());
    lemma_dec_digits_leading(str0.len());
    assert(b[pos] == B_ZERO ==> dn == 1);
    assert(b.subrange(pos + dn + 1, pos + dn + 1 + str0.len() as int) == str0);
}

proof fn lemma_subrange_split(b: Seq<u8>, pos: int, x: Seq<u8>, y: Seq<u8>)
    requires
        0 <= pos,
        pos + x.len() + y.len() <= b.len(),
        b.subrange(pos, pos + x.len() + y.len()) == x + y,
    ensures
        b.subrange(pos, pos + x.len() as int) == x,
        b.subrange(pos + x.len() as int, pos + x.len() + y.len()) == y,
{
    assert forall|k: int| 0 <= k < x.len() implies b.subrange(pos, pos + x.len() as int)[k]
        == x[k] by {
        assert(b.subrange(pos, pos + x.len() + y.len())[k] == (x + y)[k]);
    }
    assert(b.subrange(pos, pos + x.len() as int) =~= x);
    assert forall|k: int|
        0 <= k < y.len() implies b.subrange(pos + x.len() as int, pos + x.len() + y.len())[k]
        == y[k] by {
        assert(b.subrange(pos + x.len() as int, pos + x.len() + y.len())[k] == b[pos + x.len()
            + k]);
        assert(b.subrange(pos, pos + x.len() + y.len())[x.len() + k] == b[pos + (x.len() + k)]);
        assert((x + y)[x.len() + k] == y[k]);
    }
    assert(b.subrange(pos + x.len() as int, pos + x.len() + y.len()) =~= y);
}

proof fn lemma_subrange_byte(b: Seq<u8>, pos: int, c: u8)
    requires
        0 <= pos < b.len(),
        b.subrange(pos, pos + 1) == seq![c],
    ensures
        b[pos] == c,
{
    assert(b.subrange(pos, pos + 1)[0] == c);
}

/// Completeness: the encoding of an encodable value, embedded at any
/// position, parses back to exactly that value.
pub proof fn lemma_encode_parse(b: Seq<u8>, pos: int, v: BencodeModel)
    requires
        0 <= pos,
        enc_ok(v),
        pos + spec_encode(v).len() <= b.len(),
        b.subrange(pos, pos + spec_encode(v).len() as int) == spec_encode(v),
    ensures
        spec_parse(b, pos) == Result::<(BencodeModel, int), ParseError>::Ok((
            v,
            pos + spec_encode(v).len() as int,
        )),
    decreases v, 0int,
{
    match v {
        BencodeModel::Str(str0) => {
            lemma_encode_parse_str(b, pos, str0);
        },
        BencodeModel::Int(i) => {
            let mag: nat = if i < 0 {
                (-i) as nat
            } else {
                i as nat
            };
            let digits = dec_digits(mag);
            let idig = int_digits(i);
            let dn = digits.len() as int;
            let neg = i < 0;
            let ds = if neg {
                pos + 2
            } else {
                pos + 1
            };
            lemma_dec_digits_are_digits(mag);
            assert(spec_encode(v) =~= seq![B_INT] + (idig + seq![B_END]));
            lemma_subrange_split(b, pos, seq![B_INT], idig + seq![B_END]);
            lemma_subrange_byte(b, pos, B_INT);
            lemma_subrange_split(b, pos + 1, idig, seq![B_END]);
            lemma_subrange_byte(b, pos + 1 + idig.len(), B_END);
            if neg {
                assert(idig =~= seq![B_MINUS] + digits);
                lemma_subrange_split(b, pos + 1, seq![B_MINUS], digits);
                lemma_subrange_byte(b, pos + 1, B_MINUS);
            } else {
                assert(idig == digits);
            }
            assert(b.subrange(ds, ds + dn) == digits);
            assert forall|k: int| ds <= k < ds + dn implies is_digit(#[trigger] b[k]) by {
                assert(b.subrange(ds, ds + dn)[k - ds] == digits[k - ds]);
                assert(is_digit(digits[k - ds]));
            }
            assert(b[ds + dn] == B_END);
            assert(!is_digit(B_END));
            lemma_digits_end_run(b, ds, ds + dn);
            lemma_dec_val_of_digits(mag);
            assert(dec_val(b.subrange(ds, ds + dn)) == mag);
            lemma_dec_digits_leading(mag);
            assert(b[ds] == b.subrange(ds, ds + dn)[0]);
            if !neg {
                assert(b[pos + 1] == b.subrange(ds, ds + dn)[0]);
                assert(b[pos + 1] != B_MINUS);
            } else {
                assert(mag != 0);
                assert(b[ds] != B_ZERO);
            }
            assert(spec_parse(b, pos) == spec_parse_int(b, pos));
        },
        BencodeModel::List(l) => {
            let inner = spec_encode_seq(l);
            assert(spec_encode(v) =~= seq![B_LIST] + (inner + seq![B_END]));
            lemma_subrange_split(b, pos, seq![B_LIST], inner + seq![B_END]);
            lemma_subrange_byte(b, pos, B_LIST);
            lemma_subrange_split(b, pos + 1, inner, seq![B_END]);
            lemma_subrange_byte(b, pos + 1 + inner.len(), B_END);
            lemma_encode_parse_items(b, pos + 1, l);
            assert(!is_digit(B_LIST) && B_LIST != B_INT);
        },
        BencodeModel::Dict(d) => {
            let inner = spec_encode_entries(d);
            assert(spec_encode(v) =~= seq![B_DICT] + (inner + seq![B_END]));
            lemma_subrange_split(b, pos, seq![B_DICT], inner + seq![B_END]);
            lemma_subrange_byte(b, pos, B_DICT);
            lemma_subrange_split(b, pos + 1, inner, seq![B_END]);
            lemma_subrange_byte(b, pos + 1 + inner.len(), B_END);
            lemma_encode_parse_entries(b, pos + 1, d);
            assert(!is_digit(B_DICT) && B_DICT != B_INT && B_DICT != B_LIST);
        },
    }
}

proof fn lemma_encode_parse_items(b: Seq<u8>, pos: int, l: Seq<BencodeModel>)
    requires
        0 <= pos,
        enc_ok_seq(l),
        pos + spec_encode_seq(l).len() + 1 <= b.len(),
        b.subrange(pos, pos + spec_encode_seq(l).len() as int) == spec_encode_seq(l),
        b[pos + spec_encode_seq(l).len()] == B_END,
    ensures
        spec_parse_items(b, pos) == Result::<(Seq<BencodeModel>, int), ParseError>::Ok((
            l,
            pos + spec_encode_seq(l).len() + 1,
        )),
    decreases l, 1int,
{
    if l.len() == 0 {
        assert(spec_encode_seq(l).len() == 0);
        assert(b[pos] == B_END);
        assert(l =~= Seq::<BencodeModel>::empty());
    } else {
        let v0 = l[0];
        let l2 = l.drop_first();
        let e0 = spec_encode(v0);
        let e2 = spec_encode_seq(l2);
        assert(spec_encode_seq(l) =~= e0 + e2);
        lemma_subrange_split(b, pos, e0, e2);
        lemma_encode_parse(b, pos, v0);
        let p2 = pos + e0.len() as int;
        lemma_encode_parse_items(b, p2, l2);
        lemma_encode_first_byte(v0);
        assert(b[pos] == b.subrange(pos, pos + e0.len() as int)[0]);
        assert(b[pos] != B_END);
        assert(seq![v0] + l2 =~= l);
    }
}

proof fn lemma_encode_parse_entries(b: Seq<u8>, pos: int, d: Seq<(Seq<u8>, BencodeModel)>)
    requires
        0 <= pos,
        enc_ok_entries(d),
        pos + spec_encode_entries(d).len() + 1 <= b.len(),
        b.subrange(pos, pos + spec_encode_entries(d).len() as int) == spec_encode_entries(d),
        b[pos + spec_encode_entries(d).len()] == B_END,
    ensures
        spec_parse_entries(b, pos) == Result::<(Seq<(Seq<u8>, BencodeModel)>, int), ParseError>::Ok(
            (d, pos + spec_encode_entries(d).len() + 1),
        ),
    decreases d, 1int,
{
    if d.len() == 0 {
        assert(spec_encode_entries(d).len() == 0);
        assert(b[pos] == B_END);
        assert(d =~= Seq::<(Seq<u8>, BencodeModel)>::empty());
    } else {
        let ks = d[0].0;
        let v0 = d[0].1;
        let d2 = d.drop_first();
        let ek = spec_encode(BencodeModel::Str(ks));
        let e0 = spec_encode(v0);
        let e2 = spec_encode_entries(d2);
        assert(ek == dec_digits(ks.len()) + seq![B_COLON] + ks);
        assert(spec_encode_entries(d) =~= ek + (e0 + e2));
        lemma_subrange_split(b, pos, ek, e0 + e2);
        lemma_encode_parse_str(b, pos, ks);
        let p2 = pos + ek.len() as int;
        lemma_subrange_split(b, p2, e0, e2);
        lemma_encode_parse(b, p2, v0);
        let p3 = p2 + e0.len() as int;
        lemma_encode_parse_entries(b, p3, d2);
        lemma_encode_first_byte(BencodeModel::Str(ks));
        assert(b[pos] == b.subrange(pos, pos + ek.len() as int)[0]);
        assert(b[pos] != B_END);
        assert(seq![(ks, v0)] + d2 =~= d);
    }
}


// ---------------------------------------------------------------------------
// Canonical form lemmas and the round-trip laws
// ---------------------------------------------------------------------------

proof fn lemma_lex_lt_asym(a: Seq<u8>, b: Seq<u8>)
    requires
        lex_lt(a, b),
    ensures
        !lex_lt(b, a),
    decreases a.len(),
{
    if b.len() != 0 && a.len() != 0 && a[0] == b[0] {
        lemma_lex_lt_asym(a.drop_first(), b.drop_first());
    }
}

proof fn lemma_canonical_seq_index(l: Seq<BencodeModel>, i: int)
    requires
        canonical_seq(l),
        0 <= i < l.len(),
    ensures
        canonical(l[i]),
    decreases l.len(),
{
    if i > 0 {
        lemma_canonical_seq_index(l.drop_first(), i - 1);
        assert(l.drop_first()[i - 1] == l[i]);
    }
}

proof fn lemma_canonical_entries_index(d: Seq<(Seq<u8>, BencodeModel)>, i: int)
    requires
        canonical_entries(d),
        0 <= i < d.len(),
    ensures
        canonical(d[i].1),
    decreases d.len(),
{
    if i > 0 {
        lemma_canonical_entries_index(d.drop_first(), i - 1);
        assert(d.drop_first()[i - 1] == d[i]);
    }
}

proof fn lemma_sort_sorted<V>(s: Seq<(Seq<u8>, V)>)
    requires
        sorted_keys(s),
    ensures
        sort_by_key(s) == s,
    decreases s.len(),
{
    if s.len() > 0 {
        let t = s.drop_first();
        assert(sorted_keys(t)) by {
            assert(forall|i: int, j: int|
                0 <= i < j < t.len() ==> lex_lt(#[trigger] t[i].0, #[trigger] t[j].0)) by {
                assert(forall|i: int| 0 <= i < t.len() ==> #[trigger] t[i] == s[i + 1]);
            }
        }
        lemma_sort_sorted(t);
        if t.len() == 0 {
            assert(insert_by_key(s[0], t) =~= s);
        } else {
            assert(t[0] == s[1]);
            assert(lex_lt(s[0].0, t[0].0));
            lemma_lex_lt_asym(s[0].0, t[0].0);
            assert(insert_by_key(s[0], t) == seq![s[0]] + t);
            assert(seq![s[0]] + t =~= s);
        }
    }
}

/// A value already in canonical form is unchanged by canonicalization.
pub proof fn lemma_canon_id(v: BencodeModel)
    requires
        canonical(v),
    ensures
        canon(v) == v,
    decreases v, 0int,
{
    match v {
        BencodeModel::Str(_) => {},
        BencodeModel::Int(_) => {},
        BencodeModel::List(l) => {
            assert forall|i: int| 0 <= i < l.len() implies canon_map_seq(l)[i] == l[i] by {
                lemma_canonical_seq_index(l, i);
                lemma_canon_id(l[i]);
            }
            assert(canon_map_seq(l) =~= l);
        },
        BencodeModel::Dict(d) => {
            assert forall|i: int| 0 <= i < d.len() implies canon_map_entries(d)[i] == d[i] by {
                lemma_canonical_entries_index(d, i);
                lemma_canon_id(d[i].1);
            }
            assert(canon_map_entries(d) =~= d);
            lemma_sort_sorted(d);
        },
    }
}

proof fn lemma_enc_ok_seq_iff(l: Seq<BencodeModel>)
    ensures
        enc_ok_seq(l) <==> (forall|i: int| 0 <= i < l.len() ==> enc_ok(#[trigger] l[i])),
    decreases l.len(),
{
    if l.len() > 0 {
        lemma_enc_ok_seq_iff(l.drop_first());
        assert(forall|i: int| 0 <= i < l.drop_first().len() ==> #[trigger] l.drop_first()[i]
            == l[i + 1]);
        if enc_ok_seq(l) {
            assert(forall|i: int| 0 <= i < l.len() ==> enc_ok(#[trigger] l[i])) by {
                assert(forall|i: int|
                    1 <= i < l.len() ==> #[trigger] l[i] == l.drop_first()[i - 1]);
            }
        }
        if forall|i: int| 0 <= i < l.len() ==> enc_ok(#[trigger] l[i]) {
            assert(enc_ok(l[0]));
            assert(enc_ok_seq(l.drop_first()));
        }
    }
}

proof fn lemma_enc_ok_entries_iff(d: Seq<(Seq<u8>, BencodeModel)>)
    ensures
        enc_ok_entries(d) <==> (forall|i: int| 0 <= i < d.len() ==> enc_ok(#[trigger] d[i].1)),
    decreases d.len(),
{
    if d.len() > 0 {
        lemma_enc_ok_entries_iff(d.drop_first());
        assert(forall|i: int| 0 <= i < d.drop_first().len() ==> #[trigger] d.drop_first()[i]
            == d[i + 1]);
        if enc_ok_entries(d) {
            assert(forall|i: int| 0 <= i < d.len() ==> enc_ok(#[trigger] d[i].1)) by {
                assert(forall|i: int|
                    1 <= i < d.len() ==> #[trigger] d[i] == d.drop_first()[i - 1]);
            }
        }
        if forall|i: int| 0 <= i < d.len() ==> enc_ok(#[trigger] d[i].1) {
            assert(enc_ok(d[0].1));
            assert(enc_ok_entries(d.drop_first()));
        }
    }
}

proof fn lemma_insert_len<V>(e: (Seq<u8>, V), s: Seq<(Seq<u8>, V)>)
    ensures
        insert_by_key(e, s).len() == s.len() + 1,
    decreases s.len(),
{
    if s.len() > 0 && lex_lt(s[0].0, e.0) {
        lemma_insert_len(e, s.drop_first());
    }
}

proof fn lemma_sort_len<V>(s: Seq<(Seq<u8>, V)>)
    ensures
        sort_by_key(s).len() == s.len(),
    decreases s.len(),
{
    if s.len() > 0 {
        lemma_sort_len(s.drop_first());
        lemma_insert_len(s[0], sort_by_key(s.drop_first()));
    }
}

proof fn lemma_insert_elements<V>(e: (Seq<u8>, V), s: Seq<(Seq<u8>, V)>, j: int)
    requires
        0 <= j < insert_by_key(e, s).len(),
    ensures
        insert_by_key(e, s)[j] == e || exists|k: int|
            0 <= k < s.len() && s[k] == insert_by_key(e, s)[j],
    decreases s.len(),
{
    let r = insert_by_key(e, s);
    if s.len() == 0 {
        assert(r[j] == e);
    } else if lex_lt(s[0].0, e.0) {
        if j == 0 {
            assert(r[0] == s[0]);
        } else {
            lemma_insert_elements(e, s.drop_first(), j - 1);
            assert(r[j] == insert_by_key(e, s.drop_first())[j - 1]);
            if insert_by_key(e, s.drop_first())[j - 1] != e {
                let k = choose|k: int|
                    0 <= k < s.drop_first().len() && s.drop_first()[k] == insert_by_key(
                        e,
                        s.drop_first(),
                    )[j - 1];
                assert(s[k + 1] == r[j]);
            }
        }
    } else {
        if j == 0 {
            assert(r[0] == e);
        } else {
            assert(r[j] == s[j - 1]);
        }
    }
}

proof fn lemma_sort_elements<V>(s: Seq<(Seq<u8>, V)>, j: int)
    requires
        0 <= j < sort_by_key(s).len(),
    ensures
        exists|k: int| 0 <= k < s.len() && s[k] == sort_by_key(s)[j],
    decreases s.len(),
{
    let r = sort_by_key(s);
    assert(s.len() > 0) by {
        lemma_sort_len(s);
    }
    lemma_insert_elements(s[0], sort_by_key(s.drop_first()), j);
    if r[j] == s[0] {
        assert(s[0] == r[j]);
    } else {
        let k = choose|k: int|
            0 <= k < sort_by_key(s.drop_first()).len() && sort_by_key(s.drop_first())[k] == r[j];
        lemma_sort_elements(s.drop_first(), k);
        let k2 = choose|k2: int|
            0 <= k2 < s.drop_first().len() && s.drop_first()[k2] == sort_by_key(s.drop_first())[k];
        assert(s[k2 + 1] == r[j]);
    }
}

/// Canonicalization keeps every integer within 64 bits.
pub proof fn lemma_canon_enc_ok(v: BencodeModel)
    requires
        enc_ok(v),
    ensures
        enc_ok(canon(v)),
    decreases v, 0int,
{
    match v {
        BencodeModel::Str(_) => {},
        BencodeModel::Int(_) => {},
        BencodeModel::List(l) => {
            lemma_enc_ok_seq_iff(l);
            assert forall|i: int| 0 <= i < canon_map_seq(l).len() implies enc_ok(
                #[trigger] canon_map_seq(l)[i],
            ) by {
                lemma_canon_enc_ok(l[i]);
            }
            lemma_enc_ok_seq_iff(canon_map_seq(l));
        },
        BencodeModel::Dict(d) => {
            lemma_enc_ok_entries_iff(d);
            let ce = canon_map_entries(d);
            assert forall|i: int| 0 <= i < ce.len() implies enc_ok(#[trigger] ce[i].1) by {
                lemma_canon_enc_ok(d[i].1);
            }
            let sorted = sort_by_key(ce);
            assert forall|j: int| 0 <= j < sorted.len() implies enc_ok(#[trigger] sorted[j].1) by {
                lemma_sort_elements(ce, j);
                let k = choose|k: int| 0 <= k < ce.len() && ce[k] == sorted[j];
                assert(enc_ok(ce[k].1));
            }
            lemma_enc_ok_entries_iff(sorted);
        },
    }
}

/// Round-trip law, first half: a canonically ordered bencode stream
/// re-encodes byte-for-byte to itself. `canonical(v)` says every
/// dictionary in the parsed value had strictly ascending keys, which is
/// exactly what it means for the stream to be canonically ordered.
pub proof fn lemma_round_trip_canonical(b: Seq<u8>, v: BencodeModel)
    requires
        spec_parse(b, 0) == Result::<(BencodeModel, int), ParseError>::Ok((v, b.len() as int)),
        canonical(v),
    ensures
        spec_encode(canon(v)) == b,
{
    lemma_parse_sound(b, 0, v, b.len() as int);
    lemma_canon_id(v);
    assert(b.subrange(0, b.len() as int) =~= b);
}

/// Round-trip law, second half: re-encoding any parsed value and parsing
/// the result yields the value's canonical form, consuming every byte.
pub proof fn lemma_round_trip_reparse(b: Seq<u8>, v: BencodeModel, p: int)
    requires
        0 <= b.len(),
        spec_parse(b, 0) == Result::<(BencodeModel, int), ParseError>::Ok((v, p)),
    ensures
        spec_parse(spec_encode(canon(v)), 0) == Result::<(BencodeModel, int), ParseError>::Ok((
            canon(v),
            spec_encode(canon(v)).len() as int,
        )),
{
    lemma_parse_sound(b, 0, v, p);
    lemma_canon_enc_ok(v);
    let e = spec_encode(canon(v));
    assert(e.subrange(0, e.len() as int) =~= e);
    lemma_encode_parse(e, 0, canon(v));
}


// ---------------------------------------------------------------------------
// Accessors and dictionary lookup
// ---------------------------------------------------------------------------

/// The first value stored under `key`, if any.
pub open spec fn dget(d: Seq<(Seq<u8>, BencodeModel)>, key: Seq<u8>) -> Option<BencodeModel>
    decreases d.len(),
{
    if d.len() == 0 {
        None
    } else if d[0].0 == key {
        Some(d[0].1)
    } else {
        dget(d.drop_first(), key)
    }
}

proof fn lemma_dget_skip(d: Seq<(Seq<u8>, BencodeModel)>, key: Seq<u8>, i: int)
    requires
        0 <= i <= d.len(),
        forall|m: int| 0 <= m < i ==> #[trigger] d[m].0 != key,
    ensures
        dget(d, key) == dget(d.skip(i), key),
    decreases i,
{
    if i == 0 {
        assert(d.skip(0) =~= d);
    } else {
        assert(d.len() > 0);
        assert(d[0].0 != key);
        assert(d.drop_first() =~= d.skip(1));
        assert(forall|m: int| 0 <= m < i - 1 ==> #[trigger] d.skip(1)[m].0 == d[m + 1].0);
        lemma_dget_skip(d.skip(1), key, i - 1);
        assert(d.skip(1).skip(i - 1) =~= d.skip(i));
    }
}

/// Whether two byte strings hold the same bytes.
pub fn bytes_eq(a: &[u8], b: &[u8]) -> (r: bool)
    ensures
        r == (a@ == b@),
{
    if a.len() != b.len() {
        return false;
    }
    let n = a.len();
    let mut i: usize = 0;
    while i < n
        invariant
            n == a@.len() == b@.len(),
            0 <= i <= n,
            forall|k: int| 0 <= k < i ==> a@[k] == b@[k],
        decreases n - i,
    {
        if a[i] != b[i] {
            return false;
        }
        i = i + 1;
    }
    proof {
        assert(a@ =~= b@);
    }
    true
}

/// Look up `key` in a dictionary's entries, first match wins.
pub fn dict_get<'x>(entries: &'x Vec<(Vec<u8>, BencodeValue)>, key: &[u8]) -> (r: Option<
    &'x BencodeValue,
>)
    ensures
        match r {
            Some(v) => dget(entry_models_of(entries@), key@) == Some(v.model()),
            None => dget(entry_models_of(entries@), key@) is None,
        },
{
    let ghost d = entry_models_of(entries@);
    let n = entries.len();
    let mut i: usize = 0;
    while i < n
        invariant
            n == entries@.len(),
            0 <= i <= n,
            d == entry_models_of(entries@),
            forall|m: int| 0 <= m < i ==> #[trigger] d[m].0 != key@,
        decreases n - i,
    {
        let e = vstd::slice::slice_index_get(entries.as_slice(), i);
        if bytes_eq(e.0.as_slice(), key) {
            proof {
                lemma_dget_skip(d, key@, i as int);
                assert(d.skip(i as int)[0] == d[i as int]);
            }
            return Some(&e.1);
        }
        i = i + 1;
    }
    proof {
        lemma_dget_skip(d, key@, n as int);
        assert(d.skip(n as int) =~= Seq::<(Seq<u8>, BencodeModel)>::empty());
    }
    None
}

impl BencodeValue {
    /// The bytes of a byte-string value.
    pub fn as_bytes(&self) -> (r: Option<&Vec<u8>>)
        ensures
            match r {
                Some(s) => self.model() == BencodeModel::Str(s@),
                None => !(self.model() is Str),
            },
    {
        match self {
            BencodeValue::String(s) => Some(s),
            _ => None,
        }
    }

    /// A byte-string value decoded as UTF-8 text.
    pub fn as_string(&self) -> (r: Option<String>)
        ensures
            match r {
                Some(s) => self.model() matches BencodeModel::Str(bs)
                    && vstd::utf8::valid_utf8(bs) && s@ == vstd::utf8::decode_utf8(bs),
                None => !(self.model() is Str) || (self.model() matches BencodeModel::Str(bs)
                    && !vstd::utf8::valid_utf8(bs)),
            },
    {
        match self {
            BencodeValue::String(s) => {
                let mut copy: Vec<u8> = Vec::new();
                push_bytes(&mut copy, s.as_slice());
                proof {
                    assert(copy@ =~= s@);
                }
                crate::text::bytes_to_string(copy)
            },
            _ => None,
        }
    }

    /// The value of an integer.
    pub fn as_integer(&self) -> (r: Option<i64>)
        ensures
            match r {
                Some(i) => self.model() == BencodeModel::Int(i as int),
                None => !(self.model() is Int),
            },
    {
        match self {
            BencodeValue::Integer(i) => Some(*i),
            _ => None,
        }
    }

    /// The elements of a list value.
    pub fn as_list(&self) -> (r: Option<&Vec<BencodeValue>>)
        ensures
            match r {
                Some(l) => self.model() == BencodeModel::List(models_of(l@)),
                None => !(self.model() is List),
            },
    {
        match self {
            BencodeValue::List(l) => {
                proof {
                    assert(self.model()->List_0 =~= models_of(l@));
                }
                Some(l)
            },
            _ => None,
        }
    }

    /// The entries of a dictionary value, in stored order.
    pub fn as_dict(&self) -> (r: Option<&Vec<(Vec<u8>, BencodeValue)>>)
        ensures
            match r {
                Some(d) => self.model() == BencodeModel::Dict(entry_models_of(d@)),
                None => !(self.model() is Dict),
            },
    {
        match self {
            BencodeValue::Dictionary(d) => {
                proof {
                    assert(self.model()->Dict_0 =~= entry_models_of(d@));
                }
                Some(d)
            },
            _ => None,
        }
    }
}

} // verus!
