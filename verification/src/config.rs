//! The on-disk configuration record and its JSON encoding.
//!
//! The record `{"compacted":<bool>,"format":<u64>}` is stored under the
//! reserved key of the config table.  It is written in exactly one canonical
//! byte form; the parser accepts precisely that form, so reading back a
//! stored record recovers exactly the value that was written.

use vstd::prelude::*;

verus! {

/// Current on-disk format version of the index schema.
pub const CURRENT_FORMAT: u64 = 0;

/// On-disk configuration record: layout version plus the flag that records
/// whether the one-time full compaction has completed.
#[derive(Clone, Copy, Debug, PartialEq, Eq, Structural)]
pub struct Config {
    pub compacted: bool,
    pub format: u64,
}

impl Default for Config {
    /// A fresh store starts at the current format, not yet compacted.
    fn default() -> (c: Config)
        ensures
            c.compacted == false,
            c.format == CURRENT_FORMAT,
    {
        Config { compacted: false, format: CURRENT_FORMAT }
    }
}

/// An ASCII decimal digit.
pub open spec fn is_digit(b: u8) -> bool {
    48 <= b <= 57
}

/// Every byte is an ASCII decimal digit.
pub open spec fn is_digits(s: Seq<u8>) -> bool {
    forall|i: int| 0 <= i < s.len() ==> is_digit(s[i])
}

/// Canonical decimal digits of `n`, most significant first, no leading zero.
pub open spec fn dec_digits(n: nat) -> Seq<u8>
    decreases n,
{
    if n < 10 {
        seq![(48 + n) as u8]
    } else {
        dec_digits(n / 10).push((48 + n % 10) as u8)
    }
}

/// Numeric value of a digit string.
pub open spec fn digits_val(s: Seq<u8>) -> int
    decreases s.len(),
{
    if s.len() == 0 {
        0
    } else {
        digits_val(s.drop_last()) * 10 + (s.last() - 48)
    }
}

/// The bytes of `{"compacted":`.
pub open spec fn key_compacted() -> Seq<u8> {
    seq![123u8, 34u8, 99u8, 111u8, 109u8, 112u8, 97u8, 99u8, 116u8, 101u8, 100u8, 34u8, 58u8]
}

/// The bytes of `true` or `false`.
pub open spec fn bool_bytes(v: bool) -> Seq<u8> {
    if v {
        seq![116u8, 114u8, 117u8, 101u8]
    } else {
        seq![102u8, 97u8, 108u8, 115u8, 101u8]
    }
}

/// The bytes of `,"format":`.
pub open spec fn key_format() -> Seq<u8> {
    seq![44u8, 34u8, 102u8, 111u8, 114u8, 109u8, 97u8, 116u8, 34u8, 58u8]
}

/// The canonical JSON encoding of a config record.
pub open spec fn config_json(c: Config) -> Seq<u8> {
    key_compacted() + bool_bytes(c.compacted) + key_format() + dec_digits(c.format as nat)
        + seq![125u8]
}

/// The canonical digits of `n` are nonempty digits without a leading zero,
/// and their value is `n`.
pub proof fn lemma_dec_digits(n: nat)
    ensures
        dec_digits(n).len() >= 1,
        is_digits(dec_digits(n)),
        digits_val(dec_digits(n)) == n,
        n >= 1 ==> dec_digits(n)[0] != 48,
    decreases n,
{
    if n < 10 {
        let s = dec_digits(n);
        assert((48 + n) as u8 == 48 + n);
        assert(s.last() == (48 + n) as u8);
        assert(s.drop_last() =~= Seq::<u8>::empty());
        assert(digits_val(s) == digits_val(s.drop_last()) * 10 + (s.last() - 48));
        assert(digits_val(Seq::<u8>::empty()) == 0);
        assert(digits_val(s) == n);
    } else {
        lemma_dec_digits(n / 10);
        let d = dec_digits(n / 10);
        let s = dec_digits(n);
        assert(s == d.push((48 + n % 10) as u8));
        assert(s.drop_last() =~= d);
        assert(s.last() == (48 + n % 10) as u8);
        assert(digits_val(s) == digits_val(d) * 10 + ((48 + n % 10) as u8 - 48));
        assert((48 + n % 10) as u8 - 48 == n % 10);
        assert(n / 10 * 10 + n % 10 == n);
        assert(s[0] == d[0]);
        assert forall|i: int| 0 <= i < s.len() implies is_digit(s[i]) by {
            if i < d.len() {
                assert(s[i] == d[i]);
            }
        }
    }
}

/// Digit strings have nonnegative value.
pub proof fn lemma_val_nonneg(s: Seq<u8>)
    requires
        is_digits(s),
    ensures
        digits_val(s) >= 0,
    decreases s.len(),
{
    if s.len() > 0 {
        assert(is_digits(s.drop_last()));
        lemma_val_nonneg(s.drop_last());
    }
}

/// Extending a digit string can only increase its value.
pub proof fn lemma_val_extend(s: Seq<u8>, t: Seq<u8>)
    requires
        is_digits(s),
        is_digits(t),
    ensures
        digits_val(s + t) >= digits_val(s),
    decreases t.len(),
{
    if t.len() == 0 {
        assert(s + t =~= s);
    } else {
        assert(is_digits(t.drop_last()));
        assert((s + t).drop_last() =~= s + t.drop_last());
        lemma_val_extend(s, t.drop_last());
        assert(is_digits(s + t.drop_last())) by {
            assert forall|i: int| 0 <= i < (s + t.drop_last()).len() implies is_digit(
                (s + t.drop_last())[i],
            ) by {
                if i >= s.len() {
                    assert((s + t.drop_last())[i] == t.drop_last()[i - s.len()]);
                }
            }
        }
        lemma_val_nonneg(s + t.drop_last());
        assert((s + t).last() == t.last());
        lemma_val_nonneg(s);
    }
}

/// End of the run of digits beginning at `i`.
pub open spec fn run_end(s: Seq<u8>, i: int) -> int
    decreases s.len() - i,
    when 0 <= i <= s.len()
{
    if i < s.len() && is_digit(s[i]) {
        run_end(s, i + 1)
    } else {
        i
    }
}

/// A region of digits delimited on the right is exactly the digit run.
pub proof fn lemma_run_end(s: Seq<u8>, i: int, e: int)
    requires
        0 <= i <= e <= s.len(),
        forall|k: int| i <= k < e ==> is_digit(s[k]),
        e == s.len() || !is_digit(s[e]),
    ensures
        run_end(s, i) == e,
    decreases e - i,
{
    if i < e {
        lemma_run_end(s, i + 1, e);
    }
}

/// Multiplying by ten against a bound, stated without overflow.
proof fn lemma_mul10_bound(a: int, x: int)
    by (nonlinear_arith)
    requires
        a >= 0,
        x >= 0,
    ensures
        a > x / 10 ==> a * 10 > x,
        a <= x / 10 ==> a * 10 <= x,
{
}

/// The digit run reaches at least to its own start and at most to the end.
proof fn lemma_run_end_bounds(s: Seq<u8>, i: int)
    requires
        0 <= i <= s.len(),
    ensures
        i <= run_end(s, i) <= s.len(),
    decreases s.len() - i,
{
    if i < s.len() && is_digit(s[i]) {
        lemma_run_end_bounds(s, i + 1);
    }
}

/// Append the canonical decimal digits of `n`.
pub fn push_decimal(n: u64, r: &mut Vec<u8>)
    ensures
        final(r)@ == old(r)@ + dec_digits(n as nat),
    decreases n,
{
    if n >= 10 {
        push_decimal(n / 10, r);
        proof {
            assert((n / 10) as nat == n as nat / 10);
        }
    }
    let ghost mid = r@;
    let digit: u8 = 48 + (n % 10) as u8;
    r.push(digit);
    proof {
        assert((n % 10) as nat == n as nat % 10);
        if n < 10 {
            assert(r@ =~= old(r)@ + dec_digits(n as nat));
        } else {
            assert(mid == old(r)@ + dec_digits((n as nat) / 10));
            assert(dec_digits(n as nat) == dec_digits((n as nat) / 10).push(digit));
            assert(r@ =~= old(r)@ + dec_digits(n as nat));
        }
    }
}

/// Encode a config record into its canonical JSON bytes.
pub fn encode_config(c: &Config) -> (r: Vec<u8>)
    ensures
        r@ == config_json(*c),
{
    let mut r: Vec<u8> = Vec::new();
    r.push(123);
    r.push(34);
    r.push(99);
    r.push(111);
    r.push(109);
    r.push(112);
    r.push(97);
    r.push(99);
    r.push(116);
    r.push(101);
    r.push(100);
    r.push(34);
    r.push(58);
    proof {
        assert(r@ =~= key_compacted());
    }
    if c.compacted {
        r.push(116);
        r.push(114);
        r.push(117);
        r.push(101);
    } else {
        r.push(102);
        r.push(97);
        r.push(108);
        r.push(115);
        r.push(101);
    }
    proof {
        assert(r@ =~= key_compacted() + bool_bytes(c.compacted));
    }
    r.push(44);
    r.push(34);
    r.push(102);
    r.push(111);
    r.push(114);
    r.push(109);
    r.push(97);
    r.push(116);
    r.push(34);
    r.push(58);
    proof {
        assert(r@ =~= key_compacted() + bool_bytes(c.compacted) + key_format());
    }
    push_decimal(c.format, &mut r);
    r.push(125);
    proof {
        assert(r@ =~= config_json(*c));
    }
    r
}

/// Byte-for-byte equality of two buffers.
pub fn vec_eq(a: &Vec<u8>, b: &Vec<u8>) -> (r: bool)
    ensures
        r == (a@ == b@),
{
    if a.len() != b.len() {
        return false;
    }
    let mut i: usize = 0;
    while i < a.len()
        invariant
            i <= a@.len() == b@.len(),
            forall|j: int| 0 <= j < i ==> a@[j] == b@[j],
        decreases a@.len() - i,
    {
        if a[i] != b[i] {
            return false;
        }
        i = i + 1;
    }
    proof {
        assert(a@ =~= b@);
    }
    true
}

/// Read an unsigned decimal number beginning at `start`: its value and the
/// position just past its digits.  `None` means no digit begins there, or the
/// digit run exceeds the `u64` range.
pub fn scan_u64(b: &Vec<u8>, start: usize) -> (r: Option<(u64, usize)>)
    requires
        start <= b@.len(),
    ensures
        r matches Some(p) ==> {
            &&& p.1 == run_end(b@, start as int)
            &&& start < p.1 <= b@.len()
            &&& is_digits(b@.subrange(start as int, p.1 as int))
            &&& p.0 == digits_val(b@.subrange(start as int, p.1 as int))
        },
        r is None ==> run_end(b@, start as int) == start || (exists|j: int|
            start < j <= run_end(b@, start as int) && digits_val(
                b@.subrange(start as int, j),
            ) > u64::MAX),
{
    if start == b.len() {
        return None;
    }
    let c0 = b[start];
    if c0 < 48 || c0 > 57 {
        return None;
    }
    let mut i: usize = start;
    let mut acc: u64 = 0;
    proof {
        assert(b@.subrange(start as int, start as int) =~= Seq::<u8>::empty());
    }
    loop
        invariant
            start <= i <= b@.len(),
            start < b@.len(),
            is_digit(b@[start as int]),
            is_digits(b@.subrange(start as int, i as int)),
            acc == digits_val(b@.subrange(start as int, i as int)),
            run_end(b@, start as int) == run_end(b@, i as int),
        decreases b@.len() - i,
    {
        if i == b.len() {
            proof {
                assert(run_end(b@, i as int) == i);
            }
            return Some((acc, i));
        }
        let d = b[i];
        if d < 48 || d > 57 {
            proof {
                assert(run_end(b@, i as int) == i);
                if i == start {
                    assert(is_digit(b@[start as int]));
                }
            }
            return Some((acc, i));
        }
        let dv: u64 = (d - 48) as u64;
        proof {
            lemma_val_nonneg(b@.subrange(start as int, i as int));
            assert(b@.subrange(start as int, i + 1).drop_last() =~= b@.subrange(
                start as int,
                i as int,
            ));
            assert(b@.subrange(start as int, i + 1).last() == b@[i as int]);
            assert(digits_val(b@.subrange(start as int, i + 1)) == acc * 10 + dv);
            lemma_mul10_bound(acc as int, (u64::MAX - dv) as int);
        }
        if acc > (u64::MAX - dv) / 10 {
            proof {
                assert(acc * 10 > u64::MAX - dv);
                assert(digits_val(b@.subrange(start as int, i + 1)) > u64::MAX);
                assert(run_end(b@, i as int) == run_end(b@, i + 1));
                lemma_run_end_bounds(b@, i + 1);
                assert(start < i + 1 <= run_end(b@, start as int));
            }
            return None;
        }
        proof {
            assert(acc * 10 <= u64::MAX - dv);
        }
        acc = acc * 10 + dv;
        proof {
            assert(run_end(b@, i as int) == run_end(b@, i + 1));
            assert(is_digits(b@.subrange(start as int, i + 1))) by {
                assert forall|k: int| 0 <= k < i + 1 - start implies #[trigger] is_digit(
                    b@.subrange(start as int, i + 1)[k],
                ) by {
                    if k < i - start {
                        assert(b@.subrange(start as int, i + 1)[k] == b@.subrange(
                            start as int,
                            i as int,
                        )[k]);
                    }
                }
            }
        }
        i = i + 1;
    }
}

/// Layout of a canonical encoding: where the boolean shows, where the digits
/// run, and where the record closes.
pub proof fn lemma_json_shape(c: Config)
    ensures
        config_json(c).len() == (if c.compacted {
            27int
        } else {
            28int
        }) + dec_digits(c.format as nat).len() + 1,
        dec_digits(c.format as nat).len() >= 1,
        config_json(c)[13] == (if c.compacted {
            116u8
        } else {
            102u8
        }),
        config_json(c).subrange(
            (if c.compacted {
                27int
            } else {
                28int
            }),
            config_json(c).len() - 1,
        ) == dec_digits(c.format as nat),
        forall|k: int|
            (if c.compacted {
                27int
            } else {
                28int
            }) <= k < config_json(c).len() - 1 ==> is_digit(config_json(c)[k]),
        config_json(c)[config_json(c).len() - 1] == 125u8,
{
    lemma_dec_digits(c.format as nat);
    let s = config_json(c);
    let p0: int = if c.compacted {
        27
    } else {
        28
    };
    let dd = dec_digits(c.format as nat);
    let ll = dd.len() as int;
    let head = key_compacted() + bool_bytes(c.compacted) + key_format();
    assert(head.len() == p0);
    assert(s =~= head + dd + seq![125u8]);
    assert(s.len() == p0 + ll + 1);
    assert(s[13] == bool_bytes(c.compacted)[0]);
    assert forall|k: int| p0 <= k < p0 + ll implies s[k] == dd[k - p0] by {}
    assert(s.subrange(p0, p0 + ll) =~= dd);
    assert forall|k: int| p0 <= k < s.len() - 1 implies is_digit(s[k]) by {
        assert(s[k] == dd[k - p0]);
    }
    assert(s[p0 + ll] == 125u8);
}

/// Two records with the same canonical encoding are the same record.
pub proof fn lemma_json_injective(c1: Config, c2: Config)
    requires
        config_json(c1) == config_json(c2),
    ensures
        c1 == c2,
{
    lemma_json_shape(c1);
    lemma_json_shape(c2);
    lemma_dec_digits(c1.format as nat);
    lemma_dec_digits(c2.format as nat);
    assert(config_json(c1)[13] == config_json(c2)[13]);
    assert(c1.compacted == c2.compacted);
    assert(dec_digits(c1.format as nat) == dec_digits(c2.format as nat));
    assert(c1.format == c2.format);
}

/// Decode a config record from its canonical JSON bytes.  Exactly the outputs
/// of `encode_config` are accepted; on those the original record is returned.
pub fn parse_config(b: &Vec<u8>) -> (r: Option<Config>)
    ensures
        r matches Some(c) ==> b@ == config_json(c),
        forall|c: Config| b@ == config_json(c) ==> r == Some(c),
{
    let compacted: bool;
    if b.len() > 13 && b[13] == 116 {
        compacted = true;
    } else if b.len() > 13 && b[13] == 102 {
        compacted = false;
    } else {
        proof {
            assert forall|c: Config| b@ != config_json(c) by {
                lemma_json_shape(c);
            }
        }
        return None;
    }
    let p0: usize = if compacted {
        27
    } else {
        28
    };
    if b.len() <= p0 {
        proof {
            assert forall|c: Config| b@ != config_json(c) by {
                lemma_json_shape(c);
            }
        }
        return None;
    }
    let scanned = scan_u64(b, p0);
    match scanned {
        None => {
            proof {
                assert forall|c: Config| b@ != config_json(c) by {
                    if b@ == config_json(c) {
                        lemma_json_shape(c);
                        lemma_dec_digits(c.format as nat);
                        assert(c.compacted == compacted);
                        let dd = dec_digits(c.format as nat);
                        let ll = dd.len() as int;
                        lemma_run_end(b@, p0 as int, p0 + ll);
                        assert(run_end(b@, p0 as int) == p0 + ll);
                        let j = choose|j: int|
                            p0 < j <= run_end(b@, p0 as int) && digits_val(
                                b@.subrange(p0 as int, j),
                            ) > u64::MAX;
                        assert(b@.subrange(p0 as int, j) + b@.subrange(j, p0 + ll) =~= dd);
                        assert(is_digits(b@.subrange(p0 as int, j))) by {
                            assert forall|k: int| 0 <= k < j - p0 implies #[trigger] is_digit(
                                b@.subrange(p0 as int, j)[k],
                            ) by {
                                assert(b@.subrange(p0 as int, j)[k] == b@[p0 + k]);
                            }
                        }
                        assert(is_digits(b@.subrange(j, p0 + ll))) by {
                            assert forall|k: int| 0 <= k < p0 + ll - j implies #[trigger] is_digit(
                                b@.subrange(j, p0 + ll)[k],
                            ) by {
                                assert(b@.subrange(j, p0 + ll)[k] == b@[j + k]);
                            }
                        }
                        lemma_val_extend(b@.subrange(p0 as int, j), b@.subrange(j, p0 + ll));
                        assert(digits_val(dd) >= digits_val(b@.subrange(p0 as int, j)));
                        assert(digits_val(dd) == c.format as nat);
                    }
                }
            }
            None
        },
        Some((v, _end)) => {
            let c = Config { compacted, format: v };
            let enc = encode_config(&c);
            if vec_eq(b, &enc) {
                proof {
                    assert(b@ == config_json(c));
                    assert forall|c2: Config| b@ == config_json(c2) implies Some(c)
                        == Some::<Config>(c2) by {
                        lemma_json_injective(c, c2);
                    }
                }
                Some(c)
            } else {
                proof {
                    assert forall|c2: Config| b@ != config_json(c2) by {
                        if b@ == config_json(c2) {
                            lemma_json_shape(c2);
                            lemma_dec_digits(c2.format as nat);
                            assert(c2.compacted == compacted);
                            let dd = dec_digits(c2.format as nat);
                            let ll = dd.len() as int;
                            lemma_run_end(b@, p0 as int, p0 + ll);
                            assert(_end == p0 + ll);
                            assert(b@.subrange(p0 as int, p0 + ll) == dd);
                            assert(v == digits_val(dd));
                            assert(v == c2.format);
                            assert(c == c2);
                            assert(enc@ == b@);
                        }
                    }
                }
                None
            }
        },
    }
}

} // verus!
