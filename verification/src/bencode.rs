//! Generic bencode value model with a verified parser and serializer.
//!
//! Bencode has four value kinds: signed integers (`i<digits>e`), byte
//! strings (`<len>:<bytes>`), lists (`l...e`) and dictionaries (`d...e`
//! with byte-string keys).  The parser is strict: it accepts only the
//! canonical spelling of integers and lengths (no leading zeros, no
//! `-0`), integers must fit in `i64`, and nesting deeper than
//! [`MAX_DEPTH`] is rejected.
use vstd::prelude::*;

verus! {

broadcast use {vstd::seq::group_seq_axioms, vstd::std_specs::vec::axiom_vec_index_decreases};

/// Deepest nesting of lists/dictionaries that the parser accepts.
pub const MAX_DEPTH: u32 = 8;

/// A generic bencode value.
pub enum Bvalue {
    /// `i<digits>e`
    Int(i64),
    /// `<len>:<bytes>`
    Bytes(Vec<u8>),
    /// `l<values>e`
    List(Vec<Bvalue>),
    /// `d<key-value pairs>e`; keys are byte strings
    Dict(Vec<(Vec<u8>, Bvalue)>),
}

/// Mathematical model of a bencode value.
pub enum BvalueV {
    Int(int),
    Bytes(Seq<u8>),
    List(Seq<BvalueV>),
    Dict(Seq<(Seq<u8>, BvalueV)>),
}

/// The model of an executable value.
pub open spec fn bv_view(v: Bvalue) -> BvalueV
    decreases v,
{
    match v {
        Bvalue::Int(n) => BvalueV::Int(n as int),
        Bvalue::Bytes(b) => BvalueV::Bytes(b@),
        Bvalue::List(l) => BvalueV::List(bv_view_items(l@)),
        Bvalue::Dict(d) => BvalueV::Dict(bv_view_pairs(d@)),
    }
}

/// The models of a sequence of executable values.
pub open spec fn bv_view_items(l: Seq<Bvalue>) -> Seq<BvalueV>
    decreases l,
{
    if l.len() == 0 {
        seq![]
    } else {
        seq![bv_view(l[0])] + bv_view_items(l.subrange(1, l.len() as int))
    }
}

/// The models of a sequence of executable key-value pairs.
pub open spec fn bv_view_pairs(l: Seq<(Vec<u8>, Bvalue)>) -> Seq<(Seq<u8>, BvalueV)>
    decreases l,
{
    if l.len() == 0 {
        seq![]
    } else {
        seq![(l[0].0@, bv_view(l[0].1))] + bv_view_pairs(l.subrange(1, l.len() as int))
    }
}

/// True for the ASCII code of a decimal digit.
pub open spec fn is_digit(b: u8) -> bool {
    48 <= b <= 57
}

/// `10^k`.
pub open spec fn pow10(k: nat) -> nat
    decreases k,
{
    if k == 0 {
        1
    } else {
        10 * pow10((k - 1) as nat)
    }
}

/// The decimal digits of `n`, most significant first, without leading
/// zeros (`0` itself is the single digit `0`).
pub open spec fn dec_digits(n: nat) -> Seq<u8>
    decreases n,
{
    if n < 10 {
        seq![(48 + n) as u8]
    } else {
        dec_digits(n / 10) + seq![(48 + n % 10) as u8]
    }
}

/// The wire bytes of an integer value: digits, with `-` in front of a
/// negative value.
pub open spec fn int_digits(n: int) -> Seq<u8> {
    if n < 0 {
        seq![45u8] + dec_digits((-n) as nat)
    } else {
        dec_digits(n as nat)
    }
}

/// The wire bytes of a byte string: decimal length, `:`, the bytes.
pub open spec fn bstr_enc(b: Seq<u8>) -> Seq<u8> {
    dec_digits(b.len()) + seq![58u8] + b
}

/// The canonical wire encoding of a value.
pub open spec fn bv_enc(v: BvalueV) -> Seq<u8>
    decreases v,
{
    match v {
        BvalueV::Int(n) => seq![105u8] + int_digits(n) + seq![101u8],
        BvalueV::Bytes(b) => bstr_enc(b),
        BvalueV::List(l) => seq![108u8] + bv_enc_items(l) + seq![101u8],
        BvalueV::Dict(d) => seq![100u8] + bv_enc_pairs(d) + seq![101u8],
    }
}

/// The concatenated encodings of a sequence of values.
pub open spec fn bv_enc_items(l: Seq<BvalueV>) -> Seq<u8>
    decreases l,
{
    if l.len() == 0 {
        seq![]
    } else {
        bv_enc(l[0]) + bv_enc_items(l.subrange(1, l.len() as int))
    }
}

/// The concatenated encodings of a sequence of key-value pairs.
pub open spec fn bv_enc_pairs(d: Seq<(Seq<u8>, BvalueV)>) -> Seq<u8>
    decreases d,
{
    if d.len() == 0 {
        seq![]
    } else {
        bstr_enc(d[0].0) + bv_enc(d[0].1) + bv_enc_pairs(d.subrange(1, d.len() as int))
    }
}

/// A value the serializer may be given: integers fit in `i64`.
pub open spec fn bv_wf(v: BvalueV) -> bool
    decreases v,
{
    match v {
        BvalueV::Int(n) => i64::MIN <= n <= i64::MAX,
        BvalueV::Bytes(b) => true,
        BvalueV::List(l) => bv_wf_items(l),
        BvalueV::Dict(d) => bv_wf_pairs(d),
    }
}

/// Well-formedness of every value of a sequence.
pub open spec fn bv_wf_items(l: Seq<BvalueV>) -> bool
    decreases l,
{
    l.len() == 0 || (bv_wf(l[0]) && bv_wf_items(l.subrange(1, l.len() as int)))
}

/// Well-formedness of every value of a sequence of pairs.
pub open spec fn bv_wf_pairs(d: Seq<(Seq<u8>, BvalueV)>) -> bool
    decreases d,
{
    d.len() == 0 || (bv_wf(d[0].1) && bv_wf_pairs(d.subrange(1, d.len() as int)))
}

/// Nesting depth of a value: scalars are 0, a container is one more
/// than its deepest member.
pub open spec fn bv_depth(v: BvalueV) -> nat
    decreases v,
{
    match v {
        BvalueV::Int(n) => 0,
        BvalueV::Bytes(b) => 0,
        BvalueV::List(l) => 1 + bv_depth_items(l),
        BvalueV::Dict(d) => 1 + bv_depth_pairs(d),
    }
}

/// Greatest depth of the values of a sequence.
pub open spec fn bv_depth_items(l: Seq<BvalueV>) -> nat
    decreases l,
{
    if l.len() == 0 {
        0
    } else {
        let rest = bv_depth_items(l.subrange(1, l.len() as int));
        if bv_depth(l[0]) >= rest {
            bv_depth(l[0])
        } else {
            rest
        }
    }
}

/// Greatest depth of the values of a sequence of pairs.
pub open spec fn bv_depth_pairs(d: Seq<(Seq<u8>, BvalueV)>) -> nat
    decreases d,
{
    if d.len() == 0 {
        0
    } else {
        let rest = bv_depth_pairs(d.subrange(1, d.len() as int));
        if bv_depth(d[0].1) >= rest {
            bv_depth(d[0].1)
        } else {
            rest
        }
    }
}

/// Position just past the run of digit bytes that starts at `i`.
pub open spec fn digits_end(s: Seq<u8>, i: int) -> int
    decreases s.len() - i,
{
    if 0 <= i < s.len() && is_digit(s[i]) {
        digits_end(s, i + 1)
    } else {
        i
    }
}

/// Value of the digits of `s` from `i` (inclusive) to `j` (exclusive).
pub open spec fn digits_val(s: Seq<u8>, i: int, j: int) -> nat
    decreases j - i,
{
    if i < j {
        digits_val(s, i, j - 1) * 10 + (if 0 <= j - 1 < s.len() && is_digit(s[j - 1]) {
            (s[j - 1] - 48) as nat
        } else {
            0
        })
    } else {
        0
    }
}

/// Parse of a byte string (`<len>:<bytes>`) at position `i`: the string
/// and the position just past it.  The length must be canonical (no
/// leading zero) and the bytes must all be present.
pub open spec fn sp_bstr(s: Seq<u8>, i: int) -> Option<(Seq<u8>, int)> {
    if 0 <= i < s.len() && is_digit(s[i]) {
        let j = digits_end(s, i);
        if s[i] == 48 && j != i + 1 {
            None
        } else {
            let n = digits_val(s, i, j) as int;
            if j < s.len() && s[j] == 58 && j + 1 + n <= s.len() {
                Some((s.subrange(j + 1, j + 1 + n), j + 1 + n))
            } else {
                None
            }
        }
    } else {
        None
    }
}

/// Parse of an integer (`i<digits>e`) at position `i`: the value and
/// the position just past it.  The digits must be canonical (no leading
/// zero, no `-0`) and the value must fit in `i64`.
pub open spec fn sp_int(s: Seq<u8>, i: int) -> Option<(int, int)> {
    if 0 <= i < s.len() && s[i] == 105 {
        let neg = i + 1 < s.len() && s[i + 1] == 45;
        let ds = if neg {
            i + 2
        } else {
            i + 1
        };
        let j = digits_end(s, ds);
        if j == ds || !(j < s.len() && s[j] == 101) {
            None
        } else if s[ds] == 48 && j != ds + 1 {
            None
        } else {
            let m = digits_val(s, ds, j) as int;
            if neg {
                if m != 0 && -m >= i64::MIN {
                    Some((-m, j + 1))
                } else {
                    None
                }
            } else {
                if m <= i64::MAX {
                    Some((m, j + 1))
                } else {
                    None
                }
            }
        }
    } else {
        None
    }
}

/// Parse of one value at position `i`, rejecting containers nested
/// more than `depth` levels deep.
pub open spec fn sp_value(s: Seq<u8>, i: int, depth: nat) -> Option<(BvalueV, int)>
    decreases s.len() - i, 0int,
{
    if !(0 <= i < s.len()) {
        None
    } else if s[i] == 105 {
        match sp_int(s, i) {
            Some((n, j)) => Some((BvalueV::Int(n), j)),
            None => None,
        }
    } else if is_digit(s[i]) {
        match sp_bstr(s, i) {
            Some((b, j)) => Some((BvalueV::Bytes(b), j)),
            None => None,
        }
    } else if s[i] == 108 {
        if depth == 0 {
            None
        } else {
            match sp_items(s, i + 1, (depth - 1) as nat) {
                Some((vs, j)) => Some((BvalueV::List(vs), j)),
                None => None,
            }
        }
    } else if s[i] == 100 {
        if depth == 0 {
            None
        } else {
            match sp_pairs(s, i + 1, (depth - 1) as nat) {
                Some((ps, j)) => Some((BvalueV::Dict(ps), j)),
                None => None,
            }
        }
    } else {
        None
    }
}

/// Parse of the members of a list from position `i` up to and including
/// the closing `e`.
pub open spec fn sp_items(s: Seq<u8>, i: int, depth: nat) -> Option<(Seq<BvalueV>, int)>
    decreases s.len() - i, 1int,
{
    if !(0 <= i < s.len()) {
        None
    } else if s[i] == 101 {
        Some((seq![], i + 1))
    } else {
        match sp_value(s, i, depth) {
            None => None,
            Some((v, j)) => if i < j <= s.len() {
                match sp_items(s, j, depth) {
                    Some((vs, k)) => Some((seq![v] + vs, k)),
                    None => None,
                }
            } else {
                None
            },
        }
    }
}

/// Parse of the key-value pairs of a dictionary from position `i` up to
/// and including the closing `e`.  Keys may come in any order and may
/// repeat; schema layers decide what that means.
pub open spec fn sp_pairs(s: Seq<u8>, i: int, depth: nat) -> Option<(Seq<(Seq<u8>, BvalueV)>, int)>
    decreases s.len() - i, 1int,
{
    if !(0 <= i < s.len()) {
        None
    } else if s[i] == 101 {
        Some((seq![], i + 1))
    } else {
        match sp_bstr(s, i) {
            None => None,
            Some((key, j)) => if i < j <= s.len() {
                match sp_value(s, j, depth) {
                    None => None,
                    Some((v, j2)) => if j < j2 <= s.len() {
                        match sp_pairs(s, j2, depth) {
                            Some((ps, k)) => Some((seq![(key, v)] + ps, k)),
                            None => None,
                        }
                    } else {
                        None
                    },
                }
            } else {
                None
            },
        }
    }
}

/// Parse of a whole message: one value filling the input exactly.
pub open spec fn sp_message(s: Seq<u8>) -> Option<BvalueV> {
    match sp_value(s, 0, MAX_DEPTH as nat) {
        Some((v, j)) => if j == s.len() {
            Some(v)
        } else {
            None
        },
        None => None,
    }
}

/// `pow10` grows with its argument.
pub proof fn lemma_pow10_mono(a: nat, b: nat)
    requires
        a <= b,
    ensures
        pow10(a) <= pow10(b),
    decreases b,
{
    if a < b {
        lemma_pow10_mono(a, (b - 1) as nat);
    }
}

/// Everything before the end of a digit run is a digit, and the run
/// ends at the end of the input or at a non-digit.
pub proof fn lemma_digits_end_bounds(s: Seq<u8>, i: int)
    requires
        0 <= i <= s.len(),
    ensures
        i <= digits_end(s, i) <= s.len(),
        forall|k: int| i <= k < digits_end(s, i) ==> is_digit(#[trigger] s[k]),
        digits_end(s, i) == s.len() || !is_digit(s[digits_end(s, i)]),
    decreases s.len() - i,
{
    if i < s.len() && is_digit(s[i]) {
        lemma_digits_end_bounds(s, i + 1);
    }
}

/// A run of digits followed by the input's end or a non-digit is what
/// `digits_end` finds.
pub proof fn lemma_digits_end_of_run(s: Seq<u8>, i: int, j: int)
    requires
        0 <= i <= j <= s.len(),
        forall|k: int| i <= k < j ==> is_digit(#[trigger] s[k]),
        j == s.len() || !is_digit(s[j]),
    ensures
        digits_end(s, i) == j,
    decreases j - i,
{
    if i < j {
        lemma_digits_end_of_run(s, i + 1, j);
    }
}

/// A window of `n` digits is worth less than `10^n`.
pub proof fn lemma_digits_val_upper(s: Seq<u8>, i: int, j: int)
    requires
        i <= j,
    ensures
        digits_val(s, i, j) < pow10((j - i) as nat),
    decreases j - i,
{
    if i < j {
        lemma_digits_val_upper(s, i, j - 1);
    }
}

/// A digit window that starts with a digit other than `0` is worth at
/// least `10^(n-1)`.
pub proof fn lemma_digits_val_lower(s: Seq<u8>, i: int, j: int)
    requires
        0 <= i < j <= s.len(),
        is_digit(s[i]),
        s[i] != 48,
    ensures
        digits_val(s, i, j) >= pow10((j - i - 1) as nat),
    decreases j - i,
{
    if i < j - 1 {
        lemma_digits_val_lower(s, i, j - 1);
    }
}

/// Two equal digit windows are worth the same.
pub proof fn lemma_digits_val_window(s: Seq<u8>, i: int, t: Seq<u8>, j: int, n: int)
    requires
        n >= 0,
        0 <= i,
        i + n <= s.len(),
        0 <= j,
        j + n <= t.len(),
        forall|k: int| 0 <= k < n ==> s[i + k] == #[trigger] t[j + k],
    ensures
        digits_val(s, i, i + n) == digits_val(t, j, j + n),
    decreases n,
{
    if n > 0 {
        lemma_digits_val_window(s, i, t, j, n - 1);
        assert(s[i + (n - 1)] == t[j + (n - 1)]);
    }
}

/// Shape of the canonical digit string: nonempty, all digits, no
/// leading zero unless the value is `0`.
pub proof fn lemma_dec_digits_wf(n: nat)
    ensures
        dec_digits(n).len() >= 1,
        forall|k: int| 0 <= k < dec_digits(n).len() ==> is_digit(#[trigger] dec_digits(n)[k]),
        n >= 1 ==> dec_digits(n)[0] != 48,
        n < pow10(dec_digits(n).len()),
    decreases n,
{
    assert(pow10(0) == 1);
    if n < 10 {
        assert(pow10(1) == 10 * pow10(0));
    } else {
        lemma_dec_digits_wf(n / 10);
        vstd::arithmetic::div_mod::lemma_fundamental_div_mod(n as int, 10);
        assert(pow10(dec_digits(n).len()) == 10 * pow10(dec_digits(n / 10).len()));
    }
}

/// The canonical digit string of `n` is worth `n`.
pub proof fn lemma_dec_digits_val(n: nat)
    ensures
        digits_val(dec_digits(n), 0, dec_digits(n).len() as int) == n,
    decreases n,
{
    if n < 10 {
        assert(digits_val(dec_digits(n), 0, 0) == 0);
        assert(digits_val(dec_digits(n), 0, 1) == n);
    } else {
        lemma_dec_digits_val(n / 10);
        let d = dec_digits(n);
        let p = dec_digits(n / 10);
        let l = p.len() as int;
        assert forall|k: int| 0 <= k < l implies p[k] == #[trigger] d[0 + k] by {
        }
        lemma_digits_val_window(p, 0, d, 0, l);
        assert(digits_val(d, 0, l + 1) == digits_val(d, 0, l) * 10 + (n % 10));
    }
}

/// Concrete powers of ten used for range checks.
pub proof fn lemma_pow10_values()
    ensures
        pow10(19) == 10000000000000000000,
        pow10(20) == 100000000000000000000,
{
    reveal_with_fuel(pow10, 21);
}

/// Position just past the run of digits that starts at `i`.
fn scan_digits(s: &[u8], i: usize) -> (r: usize)
    requires
        i <= s@.len(),
    ensures
        r as int == digits_end(s@, i as int),
        i <= r <= s@.len(),
{
    let mut cur = i;
    loop
        invariant
            i <= cur <= s@.len(),
            digits_end(s@, i as int) == digits_end(s@, cur as int),
        ensures
            cur as int == digits_end(s@, i as int),
            i <= cur <= s@.len(),
        decreases s@.len() - cur,
    {
        if cur == s.len() {
            break;
        }
        let b = s[cur];
        if !(48 <= b && b <= 57) {
            break;
        }
        cur = cur + 1;
    }
    cur
}

/// Value of a run of at most 20 digits.
fn digits_value(s: &[u8], i: usize, j: usize) -> (r: u128)
    requires
        i <= j <= s@.len(),
        j - i <= 20,
        forall|k: int| i <= k < j ==> is_digit(#[trigger] s@[k]),
    ensures
        r as nat == digits_val(s@, i as int, j as int),
{
    let mut cur = i;
    let mut acc: u128 = 0;
    while cur < j
        invariant
            i <= cur <= j <= s@.len(),
            j - i <= 20,
            forall|k: int| i <= k < j ==> is_digit(#[trigger] s@[k]),
            acc as nat == digits_val(s@, i as int, cur as int),
        decreases j - cur,
    {
        proof {
            lemma_digits_val_upper(s@, i as int, cur as int);
            lemma_pow10_mono((cur - i) as nat, 20);
            lemma_pow10_values();
        }
        acc = acc * 10 + ((s[cur] - 48) as u128);
        cur = cur + 1;
    }
    acc
}

/// Parser for an integer (`i<digits>e`) at position `i`.
fn parse_int(s: &[u8], i: usize) -> (r: Option<(i64, usize)>)
    requires
        i <= s@.len(),
    ensures
        match r {
            Some((v, j)) => sp_int(s@, i as int) == Some((v as int, j as int)) && i < j <= s@.len(),
            None => sp_int(s@, i as int) is None,
        },
{
    if i >= s.len() || s[i] != 105 {
        return None;
    }
    let neg = i + 1 < s.len() && s[i + 1] == 45;
    let ds = if neg {
        i + 2
    } else {
        i + 1
    };
    let j = scan_digits(s, ds);
    proof {
        lemma_digits_end_bounds(s@, ds as int);
    }
    if j == ds {
        return None;
    }
    if j >= s.len() || s[j] != 101 {
        return None;
    }
    if s[ds] == 48 && j != ds + 1 {
        return None;
    }
    if j - ds > 19 {
        // at least 20 digits with no leading zero: out of `i64` range
        proof {
            lemma_digits_val_lower(s@, ds as int, j as int);
            lemma_pow10_mono(19, (j - ds - 1) as nat);
            lemma_pow10_values();
        }
        return None;
    }
    let m = digits_value(s, ds, j);
    if neg {
        if m == 0 {
            return None;
        }
        if m > 0x8000_0000_0000_0000u128 {
            return None;
        }
        if m == 0x8000_0000_0000_0000u128 {
            Some((i64::MIN, j + 1))
        } else {
            Some((-(m as i64), j + 1))
        }
    } else {
        if m > i64::MAX as u128 {
            return None;
        }
        Some((m as i64, j + 1))
    }
}

/// Parser for a byte string (`<len>:<bytes>`) at position `i`.
fn parse_bstr(s: &[u8], i: usize) -> (r: Option<(Vec<u8>, usize)>)
    requires
        i <= s@.len(),
    ensures
        match r {
            Some((b, j)) => sp_bstr(s@, i as int) == Some((b@, j as int)) && i < j <= s@.len(),
            None => sp_bstr(s@, i as int) is None,
        },
{
    if i >= s.len() {
        return None;
    }
    let c = s[i];
    if !(48 <= c && c <= 57) {
        return None;
    }
    let j = scan_digits(s, i);
    proof {
        lemma_digits_end_bounds(s@, i as int);
    }
    if c == 48 && j != i + 1 {
        return None;
    }
    if j - i > 20 {
        // at least 21 digits with no leading zero: longer than any input
        proof {
            lemma_digits_val_lower(s@, i as int, j as int);
            lemma_pow10_mono(20, (j - i - 1) as nat);
            lemma_pow10_values();
        }
        return None;
    }
    let n = digits_value(s, i, j);
    if j >= s.len() || s[j] != 58 {
        return None;
    }
    let rem = s.len() - j - 1;
    if n > rem as u128 {
        proof {
            lemma_pow10_values();
        }
        return None;
    }
    let n = n as usize;
    let mut out: Vec<u8> = Vec::new();
    let mut t: usize = 0;
    while t < n
        invariant
            t <= n,
            j + 1 + n <= s@.len(),
            s@.len() <= usize::MAX,
            out@ == s@.subrange((j + 1) as int, (j + 1 + t) as int),
        decreases n - t,
    {
        out.push(s[j + 1 + t]);
        proof {
            assert(s@.subrange((j + 1) as int, (j + 1 + t + 1) as int) =~= s@.subrange(
                (j + 1) as int,
                (j + 1 + t) as int,
            ).push(s@[(j + 1 + t) as int]));
        }
        t = t + 1;
    }
    Some((out, j + 1 + n))
}

/// `o` with `pre` prepended to its sequence of values.
pub open spec fn opt_prepend_items(pre: Seq<BvalueV>, o: Option<(Seq<BvalueV>, int)>) -> Option<
    (Seq<BvalueV>, int),
> {
    match o {
        Some((vs, j)) => Some((pre + vs, j)),
        None => None,
    }
}

/// `o` with `pre` prepended to its sequence of pairs.
pub open spec fn opt_prepend_pairs(
    pre: Seq<(Seq<u8>, BvalueV)>,
    o: Option<(Seq<(Seq<u8>, BvalueV)>, int)>,
) -> Option<(Seq<(Seq<u8>, BvalueV)>, int)> {
    match o {
        Some((ps, j)) => Some((pre + ps, j)),
        None => None,
    }
}

/// Appending a value appends its model.
pub proof fn lemma_view_items_push(l: Seq<Bvalue>, x: Bvalue)
    ensures
        bv_view_items(l.push(x)) == bv_view_items(l) + seq![bv_view(x)],
    decreases l.len(),
{
    if l.len() == 0 {
        assert(l.push(x).subrange(1, 1) =~= Seq::<Bvalue>::empty());
        assert(l.push(x).len() == 1);
        assert(l.push(x)[0] == x);
        assert(bv_view_items(l.push(x)) == seq![bv_view(l.push(x)[0])] + bv_view_items(
            l.push(x).subrange(1, 1),
        ));
        assert(bv_view_items(l.push(x)) =~= bv_view_items(l) + seq![bv_view(x)]);
    } else {
        lemma_view_items_push(l.subrange(1, l.len() as int), x);
        assert(l.push(x).subrange(1, l.len() as int + 1) =~= l.subrange(1, l.len() as int).push(x));
        assert(bv_view_items(l.push(x)) =~= bv_view_items(l) + seq![bv_view(x)]);
    }
}

/// Appending a pair appends its model.
pub proof fn lemma_view_pairs_push(l: Seq<(Vec<u8>, Bvalue)>, k: Vec<u8>, x: Bvalue)
    ensures
        bv_view_pairs(l.push((k, x))) == bv_view_pairs(l) + seq![(k@, bv_view(x))],
    decreases l.len(),
{
    if l.len() == 0 {
        assert(l.push((k, x)).subrange(1, 1) =~= Seq::<(Vec<u8>, Bvalue)>::empty());
        assert(l.push((k, x)).len() == 1);
        assert(l.push((k, x))[0] == (k, x));
        assert(bv_view_pairs(l.push((k, x))) == seq![
            (l.push((k, x))[0].0@, bv_view(l.push((k, x))[0].1)),
        ] + bv_view_pairs(l.push((k, x)).subrange(1, 1)));
        assert(bv_view_pairs(l.push((k, x))) =~= bv_view_pairs(l) + seq![(k@, bv_view(x))]);
    } else {
        lemma_view_pairs_push(l.subrange(1, l.len() as int), k, x);
        assert(l.push((k, x)).subrange(1, l.len() as int + 1) =~= l.subrange(1, l.len() as int).push(
            (k, x),
        ));
        assert(bv_view_pairs(l.push((k, x))) =~= bv_view_pairs(l) + seq![(k@, bv_view(x))]);
    }
}

/// Parser for one value at position `i`, refusing nesting deeper than
/// `depth`.
fn parse_value(s: &[u8], i: usize, depth: u32) -> (r: Option<(Bvalue, usize)>)
    requires
        i <= s@.len(),
    ensures
        match r {
            Some((v, j)) => sp_value(s@, i as int, depth as nat) == Some((bv_view(v), j as int))
                && i < j <= s@.len(),
            None => sp_value(s@, i as int, depth as nat) is None,
        },
    decreases s@.len() - i,
{
    if i >= s.len() {
        return None;
    }
    let c = s[i];
    if c == 105 {
        match parse_int(s, i) {
            Some((n, j)) => Some((Bvalue::Int(n), j)),
            None => None,
        }
    } else if 48 <= c && c <= 57 {
        match parse_bstr(s, i) {
            Some((b, j)) => Some((Bvalue::Bytes(b), j)),
            None => None,
        }
    } else if c == 108 {
        if depth == 0 {
            return None;
        }
        let ghost d = (depth - 1) as nat;
        let mut cur = i + 1;
        let mut acc: Vec<Bvalue> = Vec::new();
        loop
            invariant
                i + 1 <= cur <= s@.len(),
                s@.len() <= usize::MAX,
                i < s@.len(),
                s@[i as int] == 108,
                depth >= 1,
                d == (depth - 1) as nat,
                sp_items(s@, (i + 1) as int, d) == opt_prepend_items(
                    bv_view_items(acc@),
                    sp_items(s@, cur as int, d),
                ),
            decreases s@.len() - cur,
        {
            if cur == s.len() {
                return None;
            }
            if s[cur] == 101 {
                proof {
                    assert(sp_items(s@, cur as int, d) == Some(
                        (Seq::<BvalueV>::empty(), cur + 1),
                    ));
                    assert(bv_view_items(acc@) + Seq::<BvalueV>::empty() =~= bv_view_items(acc@));
                }
                return Some((Bvalue::List(acc), cur + 1));
            }
            match parse_value(s, cur, depth - 1) {
                None => {
                    return None;
                },
                Some((v, j)) => {
                    proof {
                        lemma_view_items_push(acc@, v);
                        assert((bv_view_items(acc@) + seq![bv_view(v)]) + match sp_items(
                            s@,
                            j as int,
                            d,
                        ) {
                            Some((vs, _)) => vs,
                            None => seq![],
                        } =~= bv_view_items(acc@) + (seq![bv_view(v)] + match sp_items(
                            s@,
                            j as int,
                            d,
                        ) {
                            Some((vs, _)) => vs,
                            None => seq![],
                        }));
                    }
                    acc.push(v);
                    cur = j;
                },
            }
        }
    } else if c == 100 {
        if depth == 0 {
            return None;
        }
        let ghost d = (depth - 1) as nat;
        let mut cur = i + 1;
        let mut acc: Vec<(Vec<u8>, Bvalue)> = Vec::new();
        loop
            invariant
                i + 1 <= cur <= s@.len(),
                s@.len() <= usize::MAX,
                i < s@.len(),
                s@[i as int] == 100,
                depth >= 1,
                d == (depth - 1) as nat,
                sp_pairs(s@, (i + 1) as int, d) == opt_prepend_pairs(
                    bv_view_pairs(acc@),
                    sp_pairs(s@, cur as int, d),
                ),
            decreases s@.len() - cur,
        {
            if cur == s.len() {
                return None;
            }
            if s[cur] == 101 {
                proof {
                    assert(sp_pairs(s@, cur as int, d) == Some(
                        (Seq::<(Seq<u8>, BvalueV)>::empty(), cur + 1),
                    ));
                    assert(bv_view_pairs(acc@) + Seq::<(Seq<u8>, BvalueV)>::empty()
                        =~= bv_view_pairs(acc@));
                }
                return Some((Bvalue::Dict(acc), cur + 1));
            }
            match parse_bstr(s, cur) {
                None => {
                    return None;
                },
                Some((key, j)) => {
                    match parse_value(s, j, depth - 1) {
                        None => {
                            return None;
                        },
                        Some((v, j2)) => {
                            proof {
                                lemma_view_pairs_push(acc@, key, v);
                                assert((bv_view_pairs(acc@) + seq![(key@, bv_view(v))]) + match
                                    sp_pairs(s@, j2 as int, d) {
                                    Some((ps, _)) => ps,
                                    None => seq![],
                                } =~= bv_view_pairs(acc@) + (seq![(key@, bv_view(v))] + match
                                    sp_pairs(s@, j2 as int, d) {
                                    Some((ps, _)) => ps,
                                    None => seq![],
                                }));
                            }
                            acc.push((key, v));
                            cur = j2;
                        },
                    }
                },
            }
        }
    } else {
        None
    }
}

/// Parser for a whole message: one value filling the input exactly.
pub fn parse(s: &[u8]) -> (r: Option<Bvalue>)
    ensures
        match r {
            Some(v) => sp_message(s@) == Some(bv_view(v)),
            None => sp_message(s@) is None,
        },
{
    match parse_value(s, 0, MAX_DEPTH) {
        Some((v, j)) => if j == s.len() {
            Some(v)
        } else {
            None
        },
        None => None,
    }
}

/// Appending a value to a sequence appends its encoding.
pub proof fn lemma_enc_items_push(l: Seq<BvalueV>, x: BvalueV)
    ensures
        bv_enc_items(l.push(x)) == bv_enc_items(l) + bv_enc(x),
    decreases l.len(),
{
    if l.len() == 0 {
        assert(l.push(x).subrange(1, 1) =~= Seq::<BvalueV>::empty());
        assert(l.push(x)[0] == x);
        assert(bv_enc_items(l.push(x)) == bv_enc(l.push(x)[0]) + bv_enc_items(
            l.push(x).subrange(1, 1),
        ));
        assert(bv_enc_items(l.push(x)) =~= bv_enc_items(l) + bv_enc(x));
    } else {
        lemma_enc_items_push(l.subrange(1, l.len() as int), x);
        assert(l.push(x).subrange(1, l.len() as int + 1) =~= l.subrange(1, l.len() as int).push(x));
        assert(bv_enc_items(l.push(x)) =~= bv_enc_items(l) + bv_enc(x));
    }
}

/// Appending a pair to a sequence appends its encoding.
pub proof fn lemma_enc_pairs_push(d: Seq<(Seq<u8>, BvalueV)>, k: Seq<u8>, x: BvalueV)
    ensures
        bv_enc_pairs(d.push((k, x))) == bv_enc_pairs(d) + bstr_enc(k) + bv_enc(x),
    decreases d.len(),
{
    if d.len() == 0 {
        assert(d.push((k, x)).subrange(1, 1) =~= Seq::<(Seq<u8>, BvalueV)>::empty());
        assert(d.push((k, x))[0] == (k, x));
        assert(bv_enc_pairs(d.push((k, x))) == bstr_enc(d.push((k, x))[0].0) + bv_enc(
            d.push((k, x))[0].1,
        ) + bv_enc_pairs(d.push((k, x)).subrange(1, 1)));
        assert(bv_enc_pairs(d.push((k, x))) =~= bv_enc_pairs(d) + bstr_enc(k) + bv_enc(x));
    } else {
        lemma_enc_pairs_push(d.subrange(1, d.len() as int), k, x);
        assert(d.push((k, x)).subrange(1, d.len() as int + 1) =~= d.subrange(
            1,
            d.len() as int,
        ).push((k, x)));
        assert(bv_enc_pairs(d.push((k, x))) =~= bv_enc_pairs(d) + bstr_enc(k) + bv_enc(x));
    }
}

/// Writer for the canonical decimal digits of `n`.
fn emit_digits(n: u64, out: &mut Vec<u8>)
    ensures
        final(out)@ == old(out)@ + dec_digits(n as nat),
    decreases n,
{
    if n < 10 {
        out.push(48 + n as u8);
        assert(final(out)@ =~= old(out)@ + dec_digits(n as nat));
    } else {
        emit_digits(n / 10, out);
        out.push(48 + (n % 10) as u8);
        assert(final(out)@ =~= old(out)@ + dec_digits(n as nat));
    }
}

/// Writer for the wire digits of a signed value.
fn emit_int_digits(n: i64, out: &mut Vec<u8>)
    ensures
        final(out)@ == old(out)@ + int_digits(n as int),
{
    if n < 0 {
        out.push(45);
        let m = (-(n as i128)) as u64;
        emit_digits(m, out);
        assert(final(out)@ =~= old(out)@ + int_digits(n as int));
    } else {
        emit_digits(n as u64, out);
    }
}

/// Writer for a byte string: decimal length, `:`, the bytes.
fn emit_bstr(b: &[u8], out: &mut Vec<u8>)
    ensures
        final(out)@ == old(out)@ + bstr_enc(b@),
{
    emit_digits(b.len() as u64, out);
    out.push(58);
    out.extend_from_slice(b);
    assert(final(out)@ =~= old(out)@ + bstr_enc(b@));
}

/// Writer for the canonical encoding of a value, appended to `out`.
#[verifier::loop_isolation(false)]
pub fn encode_value(v: &Bvalue, out: &mut Vec<u8>)
    ensures
        final(out)@ == old(out)@ + bv_enc(bv_view(*v)),
    decreases *v,
{
    match v {
        Bvalue::Int(n) => {
            out.push(105);
            emit_int_digits(*n, out);
            out.push(101);
            assert(final(out)@ =~= old(out)@ + bv_enc(bv_view(*v)));
        },
        Bvalue::Bytes(b) => {
            emit_bstr(b.as_slice(), out);
        },
        Bvalue::List(l) => {
            out.push(108);
            let ghost base = out@;
            let mut idx: usize = 0;
            while idx < l.len()
                invariant
                    idx <= l@.len(),
                    out@ == base + bv_enc_items(bv_view_items(l@.subrange(0, idx as int))),
                decreases l@.len() - idx,
            {
                proof {
                    assert(l@.subrange(0, idx as int + 1) =~= l@.subrange(0, idx as int).push(
                        l@[idx as int],
                    ));
                    lemma_view_items_push(l@.subrange(0, idx as int), l@[idx as int]);
                    lemma_enc_items_push(
                        bv_view_items(l@.subrange(0, idx as int)),
                        bv_view(l@[idx as int]),
                    );
                }
                encode_value(&l[idx], out);
                proof {
                    let pre = bv_view_items(l@.subrange(0, idx as int));
                    let y = bv_view(l@[idx as int]);
                    assert(pre + seq![y] =~= pre.push(y));
                    assert(bv_view_items(l@.subrange(0, idx as int + 1)) == pre.push(y));
                    assert(out@ =~= base + bv_enc_items(
                        bv_view_items(l@.subrange(0, idx as int + 1)),
                    ));
                }
                idx = idx + 1;
            }
            out.push(101);
            proof {
                assert(l@.subrange(0, l@.len() as int) =~= l@);
                assert(final(out)@ =~= old(out)@ + bv_enc(bv_view(*v)));
            }
        },
        Bvalue::Dict(d) => {
            out.push(100);
            let ghost base = out@;
            let mut idx: usize = 0;
            while idx < d.len()
                invariant
                    idx <= d@.len(),
                    out@ == base + bv_enc_pairs(bv_view_pairs(d@.subrange(0, idx as int))),
                decreases d@.len() - idx,
            {
                proof {
                    assert(d@.subrange(0, idx as int + 1) =~= d@.subrange(0, idx as int).push(
                        d@[idx as int],
                    ));
                    assert(d@[idx as int] == (d@[idx as int].0, d@[idx as int].1));
                    lemma_view_pairs_push(
                        d@.subrange(0, idx as int),
                        d@[idx as int].0,
                        d@[idx as int].1,
                    );
                    lemma_enc_pairs_push(
                        bv_view_pairs(d@.subrange(0, idx as int)),
                        d@[idx as int].0@,
                        bv_view(d@[idx as int].1),
                    );
                }
                let pair = &d[idx];
                emit_bstr(pair.0.as_slice(), out);
                encode_value(&pair.1, out);
                proof {
                    let pre = bv_view_pairs(d@.subrange(0, idx as int));
                    let y = (d@[idx as int].0@, bv_view(d@[idx as int].1));
                    assert(pre + seq![y] =~= pre.push(y));
                    assert(bv_view_pairs(d@.subrange(0, idx as int + 1)) == pre.push(y));
                    assert(out@ =~= base + bv_enc_pairs(
                        bv_view_pairs(d@.subrange(0, idx as int + 1)),
                    ));
                }
                idx = idx + 1;
            }
            out.push(101);
            proof {
                assert(d@.subrange(0, d@.len() as int) =~= d@);
                assert(final(out)@ =~= old(out)@ + bv_enc(bv_view(*v)));
            }
        },
    }
}

/// The canonical wire bytes of a value.
pub fn encode(v: &Bvalue) -> (out: Vec<u8>)
    ensures
        out@ == bv_enc(bv_view(*v)),
{
    let mut out: Vec<u8> = Vec::new();
    encode_value(v, &mut out);
    out
}


/// Pointwise reading of a window equality.
pub proof fn lemma_window_index(s: Seq<u8>, i: int, e: Seq<u8>)
    requires
        0 <= i,
        i + e.len() <= s.len(),
        s.subrange(i, i + e.len() as int) == e,
    ensures
        forall|k: int| 0 <= k < e.len() ==> s[i + k] == #[trigger] e[k],
{
    assert forall|k: int| 0 <= k < e.len() implies s[i + k] == #[trigger] e[k] by {
        assert(s.subrange(i, i + e.len() as int)[k] == s[i + k]);
    }
}

/// First byte of an encoding: it marks the value's kind, and it is
/// never the terminator `e`.
pub proof fn lemma_enc_first(v: BvalueV)
    ensures
        bv_enc(v).len() >= 1,
        v is Int ==> bv_enc(v)[0] == 105,
        v is Bytes ==> is_digit(bv_enc(v)[0]),
        v is List ==> bv_enc(v)[0] == 108,
        v is Dict ==> bv_enc(v)[0] == 100,
        bv_enc(v)[0] != 101,
{
    match v {
        BvalueV::Bytes(b) => {
            lemma_dec_digits_wf(b.len());
            assert(bv_enc(v)[0] == dec_digits(b.len())[0]);
        },
        _ => {},
    }
}

/// The parser reads back exactly the encoding of a byte string.
pub proof fn lemma_sp_bstr_enc(s: Seq<u8>, i: int, b: Seq<u8>)
    requires
        0 <= i,
        i + bstr_enc(b).len() <= s.len(),
        s.subrange(i, i + bstr_enc(b).len() as int) == bstr_enc(b),
    ensures
        sp_bstr(s, i) == Some((b, i + bstr_enc(b).len())),
{
    let dec = dec_digits(b.len());
    let dl = dec.len() as int;
    let e = bstr_enc(b);
    lemma_dec_digits_wf(b.len());
    lemma_dec_digits_val(b.len());
    lemma_window_index(s, i, e);
    assert forall|k: int| i <= k < i + dl implies is_digit(#[trigger] s[k]) by {
        assert(s[k] == e[k - i]);
        assert(e[k - i] == dec[k - i]);
    }
    assert(s[i + dl] == e[dl]);
    assert(e[dl] == 58);
    lemma_digits_end_of_run(s, i, i + dl);
    assert forall|k: int| 0 <= k < dl implies s[i + k] == #[trigger] dec[0 + k] by {
        assert(s[i + k] == e[k]);
    }
    lemma_digits_val_window(s, i, dec, 0, dl);
    assert(s[i + 0] == e[0]);
    assert(e[0] == dec[0]);
    if s[i] == 48 {
        assert(b.len() == 0 && dl == 1);
    }
    assert(s.subrange(i + dl + 1, i + dl + 1 + b.len() as int) =~= b) by {
        assert forall|k: int| 0 <= k < b.len() implies s.subrange(
            i + dl + 1,
            i + dl + 1 + b.len() as int,
        )[k] == b[k] by {
            assert(s[i + (dl + 1 + k)] == e[dl + 1 + k]);
            assert(e[dl + 1 + k] == b[k]);
        }
    }
}

/// The parser reads back exactly the encoding of an integer.
pub proof fn lemma_sp_int_enc(s: Seq<u8>, i: int, n: int)
    requires
        i64::MIN <= n <= i64::MAX,
        0 <= i,
        i + bv_enc(BvalueV::Int(n)).len() <= s.len(),
        s.subrange(i, i + bv_enc(BvalueV::Int(n)).len() as int) == bv_enc(BvalueV::Int(n)),
    ensures
        sp_int(s, i) == Some((n, i + bv_enc(BvalueV::Int(n)).len())),
{
    let e = bv_enc(BvalueV::Int(n));
    let m = if n < 0 { -n } else { n };
    let dec = dec_digits(m as nat);
    let dl = dec.len() as int;
    let ds = if n < 0 { i + 2 } else { i + 1 };
    lemma_dec_digits_wf(m as nat);
    lemma_dec_digits_val(m as nat);
    lemma_window_index(s, i, e);
    assert(s[i] == e[0]);
    assert(e[0] == 105);
    if n < 0 {
        assert(s[i + 1] == e[1]);
        assert(e[1] == 45);
    } else {
        assert(s[i + 1] == e[1]);
        assert(e[1] == dec[0]);
        assert(is_digit(dec[0]));
    }
    assert forall|k: int| ds <= k < ds + dl implies is_digit(#[trigger] s[k]) by {
        assert(s[k] == e[k - i]);
        assert(e[k - i] == dec[k - (ds - i) - i]);
    }
    assert(s[ds + dl] == e[ds + dl - i]);
    assert(e[ds + dl - i] == 101);
    lemma_digits_end_of_run(s, ds, ds + dl);
    assert forall|k: int| 0 <= k < dl implies s[ds + k] == #[trigger] dec[0 + k] by {
        assert(s[ds + k] == e[ds + k - i]);
    }
    lemma_digits_val_window(s, ds, dec, 0, dl);
    assert(s[i + (ds - i)] == e[ds - i]);
    assert(e[ds - i] == dec[0]);
    if s[ds] == 48 {
        assert(m == 0 && dl == 1);
    }
}


/// The parser reads back exactly the encoding of any well-formed value
/// whose nesting fits the depth budget.
pub proof fn lemma_sp_value_enc(s: Seq<u8>, i: int, depth: nat, v: BvalueV)
    requires
        bv_wf(v),
        bv_depth(v) <= depth,
        0 <= i,
        i + bv_enc(v).len() <= s.len(),
        s.subrange(i, i + bv_enc(v).len() as int) == bv_enc(v),
    ensures
        sp_value(s, i, depth) == Some((v, i + bv_enc(v).len())),
    decreases v,
{
    let e = bv_enc(v);
    lemma_enc_first(v);
    lemma_window_index(s, i, e);
    assert(s[i + 0] == e[0]);
    match v {
        BvalueV::Int(n) => {
            lemma_sp_int_enc(s, i, n);
        },
        BvalueV::Bytes(b) => {
            lemma_sp_bstr_enc(s, i, b);
        },
        BvalueV::List(l) => {
            let el = bv_enc_items(l);
            assert(s.subrange(i + 1, i + 1 + el.len() as int) =~= el) by {
                assert forall|k: int| 0 <= k < el.len() implies s.subrange(
                    i + 1,
                    i + 1 + el.len() as int,
                )[k] == el[k] by {
                    assert(s[i + (1 + k)] == e[1 + k]);
                    assert(e[1 + k] == el[k]);
                }
            }
            assert(s[i + (1 + el.len() as int)] == e[1 + el.len() as int]);
            assert(e[1 + el.len() as int] == 101);
            lemma_sp_items_enc(s, i + 1, (depth - 1) as nat, l);
        },
        BvalueV::Dict(d) => {
            let ed = bv_enc_pairs(d);
            assert(s.subrange(i + 1, i + 1 + ed.len() as int) =~= ed) by {
                assert forall|k: int| 0 <= k < ed.len() implies s.subrange(
                    i + 1,
                    i + 1 + ed.len() as int,
                )[k] == ed[k] by {
                    assert(s[i + (1 + k)] == e[1 + k]);
                    assert(e[1 + k] == ed[k]);
                }
            }
            assert(s[i + (1 + ed.len() as int)] == e[1 + ed.len() as int]);
            assert(e[1 + ed.len() as int] == 101);
            lemma_sp_pairs_enc(s, i + 1, (depth - 1) as nat, d);
        },
    }
}

/// The parser reads back exactly an encoded run of list members closed
/// by `e`.
pub proof fn lemma_sp_items_enc(s: Seq<u8>, i: int, depth: nat, vs: Seq<BvalueV>)
    requires
        bv_wf_items(vs),
        bv_depth_items(vs) <= depth,
        0 <= i,
        i + bv_enc_items(vs).len() + 1 <= s.len(),
        s.subrange(i, i + bv_enc_items(vs).len() as int) == bv_enc_items(vs),
        s[i + bv_enc_items(vs).len()] == 101,
    ensures
        sp_items(s, i, depth) == Some((vs, i + bv_enc_items(vs).len() + 1)),
    decreases vs,
{
    if vs.len() == 0 {
        assert(vs =~= Seq::<BvalueV>::empty());
    } else {
        let v0 = vs[0];
        let rest = vs.subrange(1, vs.len() as int);
        let e0 = bv_enc(v0);
        let er = bv_enc_items(rest);
        let ev = bv_enc_items(vs);
        lemma_window_index(s, i, ev);
        lemma_enc_first(v0);
        assert(s[i + 0] == ev[0]);
        assert(ev[0] == e0[0]);
        assert(s.subrange(i, i + e0.len() as int) =~= e0) by {
            assert forall|k: int| 0 <= k < e0.len() implies s.subrange(
                i,
                i + e0.len() as int,
            )[k] == e0[k] by {
                assert(s[i + k] == ev[k]);
                assert(ev[k] == e0[k]);
            }
        }
        lemma_sp_value_enc(s, i, depth, v0);
        let j = i + e0.len() as int;
        assert(s.subrange(j, j + er.len() as int) =~= er) by {
            assert forall|k: int| 0 <= k < er.len() implies s.subrange(
                j,
                j + er.len() as int,
            )[k] == er[k] by {
                assert(s[i + (e0.len() + k)] == ev[e0.len() + k]);
                assert(ev[e0.len() + k] == er[k]);
            }
        }
        assert(s[j + er.len()] == 101);
        lemma_sp_items_enc(s, j, depth, rest);
        assert(seq![v0] + rest =~= vs);
    }
}

/// The parser reads back exactly an encoded run of dictionary pairs
/// closed by `e`.
pub proof fn lemma_sp_pairs_enc(s: Seq<u8>, i: int, depth: nat, ds: Seq<(Seq<u8>, BvalueV)>)
    requires
        bv_wf_pairs(ds),
        bv_depth_pairs(ds) <= depth,
        0 <= i,
        i + bv_enc_pairs(ds).len() + 1 <= s.len(),
        s.subrange(i, i + bv_enc_pairs(ds).len() as int) == bv_enc_pairs(ds),
        s[i + bv_enc_pairs(ds).len()] == 101,
    ensures
        sp_pairs(s, i, depth) == Some((ds, i + bv_enc_pairs(ds).len() + 1)),
    decreases ds,
{
    if ds.len() == 0 {
        assert(ds =~= Seq::<(Seq<u8>, BvalueV)>::empty());
    } else {
        let k0 = ds[0].0;
        let v0 = ds[0].1;
        let rest = ds.subrange(1, ds.len() as int);
        let ek = bstr_enc(k0);
        let e0 = bv_enc(v0);
        let er = bv_enc_pairs(rest);
        let ev = bv_enc_pairs(ds);
        lemma_window_index(s, i, ev);
        lemma_dec_digits_wf(k0.len());
        lemma_enc_first(v0);
        assert(s[i + 0] == ev[0]);
        assert(ev[0] == ek[0]);
        assert(ek[0] == dec_digits(k0.len())[0]);
        assert(s.subrange(i, i + ek.len() as int) =~= ek) by {
            assert forall|k: int| 0 <= k < ek.len() implies s.subrange(
                i,
                i + ek.len() as int,
            )[k] == ek[k] by {
                assert(s[i + k] == ev[k]);
                assert(ev[k] == ek[k]);
            }
        }
        lemma_sp_bstr_enc(s, i, k0);
        let j = i + ek.len() as int;
        assert(s.subrange(j, j + e0.len() as int) =~= e0) by {
            assert forall|k: int| 0 <= k < e0.len() implies s.subrange(
                j,
                j + e0.len() as int,
            )[k] == e0[k] by {
                assert(s[i + (ek.len() + k)] == ev[ek.len() + k]);
                assert(ev[ek.len() + k] == e0[k]);
            }
        }
        lemma_sp_value_enc(s, j, depth, v0);
        let j2 = j + e0.len() as int;
        assert(s.subrange(j2, j2 + er.len() as int) =~= er) by {
            assert forall|k: int| 0 <= k < er.len() implies s.subrange(
                j2,
                j2 + er.len() as int,
            )[k] == er[k] by {
                assert(s[i + (ek.len() + e0.len() + k)] == ev[ek.len() + e0.len() + k]);
                assert(ev[ek.len() + e0.len() + k] == er[k]);
            }
        }
        assert(s[j2 + er.len()] == 101);
        lemma_sp_pairs_enc(s, j2, depth, rest);
        assert(ds[0] == (k0, v0));
        assert(seq![(k0, v0)] + rest =~= ds);
    }
}

/// Decoding inverts encoding: the whole-message parse of the canonical
/// bytes of a well-formed, depth-bounded value gives the value back.
pub proof fn lemma_parse_of_encode(v: BvalueV)
    requires
        bv_wf(v),
        bv_depth(v) <= MAX_DEPTH as nat,
    ensures
        sp_message(bv_enc(v)) == Some(v),
{
    let s = bv_enc(v);
    assert(s.subrange(0, s.len() as int) =~= s);
    lemma_sp_value_enc(s, 0, MAX_DEPTH as nat, v);
}


/// Length and member-wise reading of the pair models.
pub proof fn lemma_view_pairs_index(l: Seq<(Vec<u8>, Bvalue)>, k: int)
    ensures
        bv_view_pairs(l).len() == l.len(),
        0 <= k < l.len() ==> bv_view_pairs(l)[k] == (l[k].0@, bv_view(l[k].1)),
    decreases l.len(),
{
    if l.len() > 0 {
        lemma_view_pairs_index(l.subrange(1, l.len() as int), k - 1);
    }
}

/// Length and member-wise reading of the item models.
pub proof fn lemma_view_items_index(l: Seq<Bvalue>, k: int)
    ensures
        bv_view_items(l).len() == l.len(),
        0 <= k < l.len() ==> bv_view_items(l)[k] == bv_view(l[k]),
    decreases l.len(),
{
    if l.len() > 0 {
        lemma_view_items_index(l.subrange(1, l.len() as int), k - 1);
    }
}


/// The canonical digit string of the value of a leading-zero-free
/// digit run is the run itself.
pub proof fn lemma_digits_canon(s: Seq<u8>, i: int, j: int)
    requires
        0 <= i < j <= s.len(),
        forall|k: int| i <= k < j ==> is_digit(#[trigger] s[k]),
        s[i] != 48 || j == i + 1,
    ensures
        dec_digits(digits_val(s, i, j)) == s.subrange(i, j),
    decreases j - i,
{
    if j == i + 1 {
        assert(digits_val(s, i, i) == 0);
        assert(digits_val(s, i, j) == (s[i] - 48) as nat);
        assert(dec_digits(digits_val(s, i, j)) =~= s.subrange(i, j));
    } else {
        lemma_digits_canon(s, i, j - 1);
        let n = digits_val(s, i, j);
        let m = digits_val(s, i, j - 1);
        let d = (s[j - 1] - 48) as nat;
        assert(pow10(0) == 1);
        lemma_pow10_mono(0, (j - 1 - i - 1) as nat);
        lemma_digits_val_lower(s, i, j - 1);
        assert(m >= 1);
        vstd::arithmetic::div_mod::lemma_fundamental_div_mod_converse(
            n as int,
            10,
            m as int,
            d as int,
        );
        assert(n / 10 == m);
        assert(n % 10 == d);
        assert(dec_digits(n) == dec_digits(m) + seq![(48 + n % 10) as u8]);
        assert(dec_digits(n) =~= s.subrange(i, j));
    }
}

/// What the byte-string parser accepts is exactly the canonical
/// encoding of what it returns.
pub proof fn lemma_enc_of_sp_bstr(s: Seq<u8>, i: int)
    ensures
        match sp_bstr(s, i) {
            Some((b, j)) => i < j <= s.len() && bstr_enc(b) == s.subrange(i, j),
            None => true,
        },
{
    match sp_bstr(s, i) {
        Some((b, j)) => {
            let j0 = digits_end(s, i);
            lemma_digits_end_bounds(s, i);
            lemma_digits_canon(s, i, j0);
            assert(b.len() == digits_val(s, i, j0));
            assert(dec_digits(b.len()) == s.subrange(i, j0));
            assert(bstr_enc(b) =~= s.subrange(i, j));
        },
        None => {},
    }
}

/// What the integer parser accepts is exactly the canonical encoding
/// of what it returns.
pub proof fn lemma_enc_of_sp_int(s: Seq<u8>, i: int)
    ensures
        match sp_int(s, i) {
            Some((n, j)) => i < j <= s.len() && i64::MIN <= n <= i64::MAX && bv_enc(
                BvalueV::Int(n),
            ) == s.subrange(i, j),
            None => true,
        },
{
    match sp_int(s, i) {
        Some((n, j)) => {
            let neg = i + 1 < s.len() && s[i + 1] == 45;
            let ds: int = if neg {
                i + 2
            } else {
                i + 1
            };
            let j0 = digits_end(s, ds);
            lemma_digits_end_bounds(s, ds);
            lemma_digits_canon(s, ds, j0);
            let m = digits_val(s, ds, j0);
            assert(dec_digits(m) == s.subrange(ds, j0));
            if neg {
                assert(n == -(m as int));
                assert((-n) as nat == m);
                assert(int_digits(n) == seq![45u8] + dec_digits(m));
            } else {
                assert(n == m as int);
                assert(int_digits(n) == dec_digits(m));
            }
            assert(bv_enc(BvalueV::Int(n)) =~= s.subrange(i, j));
        },
        None => {},
    }
}

/// What the value parser accepts is exactly the canonical encoding of
/// the well-formed value it returns: the strict parser admits no
/// second spelling of any value.
pub proof fn lemma_encode_of_sp_value(s: Seq<u8>, i: int, depth: nat)
    ensures
        match sp_value(s, i, depth) {
            Some((v, j)) => i < j <= s.len() && bv_wf(v) && bv_enc(v) == s.subrange(i, j),
            None => true,
        },
    decreases s.len() - i, 0int,
{
    match sp_value(s, i, depth) {
        Some((v, j)) => {
            if s[i] == 105 {
                lemma_enc_of_sp_int(s, i);
            } else if is_digit(s[i]) {
                lemma_enc_of_sp_bstr(s, i);
            } else if s[i] == 108 {
                lemma_encode_of_sp_items(s, i + 1, (depth - 1) as nat);
                let (vs, k) = match sp_items(s, i + 1, (depth - 1) as nat) {
                    Some(p) => p,
                    None => arbitrary(),
                };
                assert(bv_enc(v) == seq![108u8] + bv_enc_items(vs) + seq![101u8]);
                assert(bv_enc(v) =~= s.subrange(i, j));
            } else {
                lemma_encode_of_sp_pairs(s, i + 1, (depth - 1) as nat);
                let (ps, k) = match sp_pairs(s, i + 1, (depth - 1) as nat) {
                    Some(p) => p,
                    None => arbitrary(),
                };
                assert(bv_enc(v) == seq![100u8] + bv_enc_pairs(ps) + seq![101u8]);
                assert(bv_enc(v) =~= s.subrange(i, j));
            }
        },
        None => {},
    }
}

/// As [`lemma_encode_of_sp_value`], for a parsed run of list members:
/// the bytes read are the members' encodings followed by `e`.
pub proof fn lemma_encode_of_sp_items(s: Seq<u8>, i: int, depth: nat)
    ensures
        match sp_items(s, i, depth) {
            Some((vs, k)) => i < k <= s.len() && bv_wf_items(vs) && bv_enc_items(vs) == s.subrange(
                i,
                k - 1,
            ) && s[k - 1] == 101,
            None => true,
        },
    decreases s.len() - i, 1int,
{
    match sp_items(s, i, depth) {
        Some((vs, k)) => {
            if s[i] == 101 {
                assert(bv_enc_items(vs) =~= s.subrange(i, i));
            } else {
                lemma_encode_of_sp_value(s, i, depth);
                let (v, j) = match sp_value(s, i, depth) {
                    Some(p) => p,
                    None => arbitrary(),
                };
                lemma_encode_of_sp_items(s, j, depth);
                let (vs2, k2) = match sp_items(s, j, depth) {
                    Some(p) => p,
                    None => arbitrary(),
                };
                assert(vs == seq![v] + vs2);
                assert(vs[0] == v);
                assert(vs.subrange(1, vs.len() as int) =~= vs2);
                assert(bv_enc_items(vs) == bv_enc(v) + bv_enc_items(vs2));
                assert(bv_enc_items(vs) =~= s.subrange(i, k - 1));
            }
        },
        None => {},
    }
}

/// As [`lemma_encode_of_sp_items`], for a parsed run of dictionary
/// pairs.
pub proof fn lemma_encode_of_sp_pairs(s: Seq<u8>, i: int, depth: nat)
    ensures
        match sp_pairs(s, i, depth) {
            Some((ps, k)) => i < k <= s.len() && bv_wf_pairs(ps) && bv_enc_pairs(ps) == s.subrange(
                i,
                k - 1,
            ) && s[k - 1] == 101,
            None => true,
        },
    decreases s.len() - i, 1int,
{
    match sp_pairs(s, i, depth) {
        Some((ps, k)) => {
            if s[i] == 101 {
                assert(bv_enc_pairs(ps) =~= s.subrange(i, i));
            } else {
                lemma_enc_of_sp_bstr(s, i);
                let (key, j) = match sp_bstr(s, i) {
                    Some(p) => p,
                    None => arbitrary(),
                };
                lemma_encode_of_sp_value(s, j, depth);
                let (v, j2) = match sp_value(s, j, depth) {
                    Some(p) => p,
                    None => arbitrary(),
                };
                lemma_encode_of_sp_pairs(s, j2, depth);
                let (ps2, k2) = match sp_pairs(s, j2, depth) {
                    Some(p) => p,
                    None => arbitrary(),
                };
                assert(ps == seq![(key, v)] + ps2);
                assert(ps[0] == (key, v));
                assert(ps.subrange(1, ps.len() as int) =~= ps2);
                assert(bv_enc_pairs(ps) == bstr_enc(key) + bv_enc(v) + bv_enc_pairs(ps2));
                assert(bv_enc_pairs(ps) =~= s.subrange(i, k - 1));
            }
        },
        None => {},
    }
}

/// Encoding inverts decoding: whatever bytes the whole-message parser
/// accepts are exactly the canonical encoding of the value it returns.
pub proof fn lemma_encode_of_parse(s: Seq<u8>, v: BvalueV)
    requires
        sp_message(s) == Some(v),
    ensures
        bv_wf(v),
        bv_enc(v) == s,
{
    lemma_encode_of_sp_value(s, 0, MAX_DEPTH as nat);
    assert(s.subrange(0, s.len() as int) =~= s);
}


/// Every member of a well-formed sequence is well-formed.
pub proof fn lemma_bv_wf_items_index(l: Seq<BvalueV>, k: int)
    requires
        bv_wf_items(l),
        0 <= k < l.len(),
    ensures
        bv_wf(l[k]),
    decreases l.len(),
{
    if k > 0 {
        lemma_bv_wf_items_index(l.subrange(1, l.len() as int), k - 1);
    }
}

} // verus!
