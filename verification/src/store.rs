//! The store's decisions, verified over plain values.
//!
//! The embedded key-value engine performs the disk work; every decision the
//! store takes around it is a function here: the format/migration gate
//! evaluated once per open, the durability mode chosen per commit, the
//! one-time-compaction step chosen per flush, and the filter that turns an
//! ascending table scan into the fixed-width prefix iteration.

use crate::batch::{all_len, views};
use crate::config::{parse_config, Config, CURRENT_FORMAT};
use crate::order::{
    clone_bytes, has_prefix, lemma_prefix_run_ends, lex_le, lex_lt, starts_with,
};
use vstd::prelude::*;
use vstd::string::StringExecFns;

verus! {

/// Why a store demands a re-index before it can be opened.
#[derive(Clone, Copy, Debug, PartialEq, Eq, Structural)]
pub enum ReindexCause {
    /// Data found under the pre-table single-namespace layout.
    Legacy,
    /// The stored format version differs from the current one.
    Format { stored: u64 },
}

/// What the open sequence must do next, decided once from what the store
/// holds on disk.
#[derive(Clone, Copy, Debug, PartialEq, Eq, Structural)]
pub enum OpenDecision {
    /// The layout is current: persist this config and serve; go online
    /// immediately when it is already marked compacted.
    Proceed { config: Config },
    /// Re-index needed and allowed: destroy the store, reopen empty, start
    /// from the default config.
    Rebuild { cause: ReindexCause },
    /// Re-index needed but not allowed: refuse to open.
    Refuse { cause: ReindexCause },
    /// The stored config record does not decode: an unrecoverable defect.
    Corrupt,
}

/// One decimal digit as a character.
pub open spec fn digit_char(n: nat) -> char {
    if n == 0 {
        '0'
    } else if n == 1 {
        '1'
    } else if n == 2 {
        '2'
    } else if n == 3 {
        '3'
    } else if n == 4 {
        '4'
    } else if n == 5 {
        '5'
    } else if n == 6 {
        '6'
    } else if n == 7 {
        '7'
    } else if n == 8 {
        '8'
    } else {
        '9'
    }
}

/// Canonical decimal digits of `n` as characters, most significant first.
pub open spec fn dec_chars(n: nat) -> Seq<char>
    decreases n,
{
    if n < 10 {
        seq![digit_char(n)]
    } else {
        dec_chars(n / 10).push(digit_char(n % 10))
    }
}

/// One decimal digit as a string.
fn digit_str(d: u64) -> (r: &'static str)
    requires
        d < 10,
    ensures
        r@ == seq![digit_char(d as nat)],
{
    let r: &'static str = match d {
        0 => "0",
        1 => "1",
        2 => "2",
        3 => "3",
        4 => "4",
        5 => "5",
        6 => "6",
        7 => "7",
        8 => "8",
        _ => "9",
    };
    proof {
        reveal_strlit("0");
        reveal_strlit("1");
        reveal_strlit("2");
        reveal_strlit("3");
        reveal_strlit("4");
        reveal_strlit("5");
        reveal_strlit("6");
        reveal_strlit("7");
        reveal_strlit("8");
        reveal_strlit("9");
        assert(r@ =~= seq![digit_char(d as nat)]);
    }
    r
}

/// Append the decimal digits of `n`.
fn push_dec_chars(n: u64, s: &mut String)
    ensures
        final(s)@ == old(s)@ + dec_chars(n as nat),
    decreases n,
{
    if n >= 10 {
        push_dec_chars(n / 10, s);
        proof {
            assert((n / 10) as nat == n as nat / 10);
        }
    }
    let ghost mid = s@;
    let d = digit_str(n % 10);
    s.append(d);
    proof {
        assert((n % 10) as nat == n as nat % 10);
        if n < 10 {
            assert(s@ =~= old(s)@ + dec_chars(n as nat));
        } else {
            assert(dec_chars(n as nat) == dec_chars((n as nat) / 10).push(digit_char(n as nat % 10)));
            assert(s@ =~= old(s)@ + dec_chars(n as nat));
        }
    }
}

/// The exact wording of a refused open.
pub open spec fn spec_cause_message(c: ReindexCause) -> Seq<char> {
    match c {
        ReindexCause::Legacy => "re-index required due to legacy format"@,
        ReindexCause::Format { stored } => "re-index required due to unsupported format "@
            + dec_chars(stored as nat) + " != "@ + dec_chars(CURRENT_FORMAT as nat),
    }
}

impl ReindexCause {
    /// The error text a refused open surfaces, naming the cause; a format
    /// mismatch names both version numbers.
    pub fn message(&self) -> (r: String)
        ensures
            r@ == spec_cause_message(*self),
    {
        match self {
            ReindexCause::Legacy => String::from_str("re-index required due to legacy format"),
            ReindexCause::Format { stored } => {
                let mut s = String::from_str("re-index required due to unsupported format ");
                push_dec_chars(*stored, &mut s);
                s.append(" != ");
                push_dec_chars(CURRENT_FORMAT, &mut s);
                s
            },
        }
    }
}

/// The cause the on-disk state presents, if any: a legacy layout wins over a
/// format mismatch, and a current-format store presents none.
pub open spec fn spec_cause(config: Config, legacy: bool) -> Option<ReindexCause> {
    if legacy {
        Some(ReindexCause::Legacy)
    } else if config.format != CURRENT_FORMAT {
        Some(ReindexCause::Format { stored: config.format })
    } else {
        None
    }
}

/// The format/migration gate, evaluated once per open: from the raw stored
/// config record (if any), whether the single-namespace layout holds data,
/// and whether the caller allows automatic re-indexing.
pub fn decide_open(stored: Option<&Vec<u8>>, legacy: bool, auto_reindex: bool) -> (r: OpenDecision)
    ensures
        match stored {
            Some(b) => {
                if exists|c: Config| b@ == crate::config::config_json(c) {
                    forall|c: Config|
                        b@ == crate::config::config_json(c) ==> r == (match spec_cause(c, legacy) {
                            None => OpenDecision::Proceed { config: c },
                            Some(cause) => if auto_reindex {
                                OpenDecision::Rebuild { cause }
                            } else {
                                OpenDecision::Refuse { cause }
                            },
                        })
                } else {
                    r == OpenDecision::Corrupt
                }
            },
            None => r == (match spec_cause(Config { compacted: false, format: CURRENT_FORMAT },
                legacy) {
                None => OpenDecision::Proceed {
                    config: Config { compacted: false, format: CURRENT_FORMAT },
                },
                Some(cause) => if auto_reindex {
                    OpenDecision::Rebuild { cause }
                } else {
                    OpenDecision::Refuse { cause }
                },
            }),
        },
{
    let config: Config;
    match stored {
        None => {
            config = Config::default();
        },
        Some(b) => {
            match parse_config(b) {
                Some(c) => {
                    config = c;
                },
                None => {
                    return OpenDecision::Corrupt;
                },
            }
        },
    }
    let cause: Option<ReindexCause>;
    if legacy {
        cause = Some(ReindexCause::Legacy);
    } else if config.format != CURRENT_FORMAT {
        cause = Some(ReindexCause::Format { stored: config.format });
    } else {
        cause = None;
    }
    match cause {
        None => OpenDecision::Proceed { config },
        Some(c) => {
            if auto_reindex {
                OpenDecision::Rebuild { cause: c }
            } else {
                OpenDecision::Refuse { cause: c }
            }
        },
    }
}

/// Durability mode of one batch commit, chosen by operating phase: bulk
/// import skips the write-ahead log and does not sync; online commits sync
/// and keep the log.
pub fn decide_write_durability(bulk_import: bool) -> (r: (bool, bool))
    ensures
        r.0 == !bulk_import,
        r.1 == bulk_import,
{
    (!bulk_import, bulk_import)
}

/// What a flush must do after forcing the tables to disk: run the one-time
/// full compaction and persist the record flipped to `compacted`, exactly
/// when the store is not yet compacted.
pub fn decide_flush(config: Config) -> (r: Option<Config>)
    ensures
        config.compacted ==> r is None,
        !config.compacted ==> r == Some(Config { compacted: true, format: config.format }),
{
    if config.compacted {
        None
    } else {
        Some(Config { compacted: true, format: config.format })
    }
}

/// A scan key is kept when it has the table's fixed width and begins with
/// the requested prefix.
pub open spec fn keeps(x: Seq<u8>, prefix: Option<Seq<u8>>, width: nat) -> bool {
    x.len() == width && match prefix {
        Some(p) => starts_with(x, p),
        None => true,
    }
}

/// Strictly ascending raw-byte order: what an engine scan yields, since a
/// table holds each key once.
pub open spec fn sorted_strict(s: Seq<Seq<u8>>) -> bool {
    forall|i: int, j: int| 0 <= i < j < s.len() ==> lex_lt(s[i], s[j])
}

/// A strictly ascending sequence is determined by the set of keys it holds:
/// two scans that agree on membership agree entirely.  So what a prefix scan
/// returns — exactly the stored rows of the right width that begin with the
/// prefix, in ascending order — cannot depend on the order the rows were
/// inserted in.
pub proof fn lemma_sorted_strict_unique(a: Seq<Seq<u8>>, b: Seq<Seq<u8>>)
    requires
        sorted_strict(a),
        sorted_strict(b),
        forall|x: Seq<u8>| #[trigger] a.contains(x) <==> b.contains(x),
    ensures
        a == b,
    decreases a.len(),
{
    if a.len() == 0 {
        if b.len() > 0 {
            assert(b.contains(b[0]));
            assert(a.contains(b[0]));
        }
        assert(a =~= b);
    } else {
        assert(a.contains(a[0]));
        let k = choose|k: int| 0 <= k < b.len() && b[k] == a[0];
        assert(b.contains(b[0]));
        assert(a.contains(b[0]));
        let m = choose|m: int| 0 <= m < a.len() && a[m] == b[0];
        if k > 0 {
            assert(lex_lt(b[0], b[k]));
            if m > 0 {
                assert(lex_lt(a[0], a[m]));
                crate::order::lemma_lex_antisymmetric(a[0], b[0]);
            }
        }
        assert(a[0] == b[0]);
        let at = a.drop_first();
        let bt = b.drop_first();
        assert forall|i: int, j: int| 0 <= i < j < at.len() implies lex_lt(at[i], at[j]) by {
            assert(at[i] == a[i + 1]);
            assert(at[j] == a[j + 1]);
        }
        assert forall|i: int, j: int| 0 <= i < j < bt.len() implies lex_lt(bt[i], bt[j]) by {
            assert(bt[i] == b[i + 1]);
            assert(bt[j] == b[j + 1]);
        }
        assert forall|x: Seq<u8>| #[trigger] at.contains(x) implies bt.contains(x) by {
            let i = choose|i: int| 0 <= i < at.len() && at[i] == x;
            assert(a[i + 1] == x);
            assert(lex_lt(a[0], a[i + 1]));
            assert(a.contains(x));
            assert(b.contains(x));
            let j = choose|j: int| 0 <= j < b.len() && b[j] == x;
            assert(j != 0);
            assert(bt[j - 1] == x);
            assert(bt.contains(bt[j - 1]));
        }
        assert forall|x: Seq<u8>| #[trigger] bt.contains(x) implies at.contains(x) by {
            let i = choose|i: int| 0 <= i < bt.len() && bt[i] == x;
            assert(b[i + 1] == x);
            assert(lex_lt(b[0], b[i + 1]));
            assert(b.contains(x));
            assert(a.contains(x));
            let j = choose|j: int| 0 <= j < a.len() && a[j] == x;
            assert(j != 0);
            assert(at[j - 1] == x);
            assert(at.contains(at[j - 1]));
        }
        lemma_sorted_strict_unique(at, bt);
        assert(a =~= b) by {
            assert(a.len() == b.len());
            assert forall|i: int| 0 <= i < a.len() implies a[i] == b[i] by {
                if i > 0 {
                    assert(a[i] == at[i - 1]);
                    assert(b[i] == bt[i - 1]);
                }
            }
        }
    }
}

/// The prefix iterator's filtering step.  `keys` are the keys an ascending
/// table scan yields from the seek position; the result keeps exactly those
/// of the table's fixed width that begin with the prefix, in the same order.
/// Keys of any other width are skipped without ending the scan; the scan
/// ends at the first key that no longer begins with the prefix, which the
/// ascending order justifies.
pub fn filter_scan(keys: &Vec<Vec<u8>>, prefix: Option<&Vec<u8>>, width: usize) -> (r: Vec<Vec<u8>>)
    requires
        sorted_strict(views(keys@)),
        match prefix {
            Some(p) => forall|i: int|
                0 <= i < keys@.len() ==> lex_le(p@, #[trigger] views(keys@)[i]),
            None => true,
        },
    ensures
        sorted_strict(views(r@)),
        all_len(views(r@), width as nat),
        forall|x: Seq<u8>|
            #[trigger] views(r@).contains(x) <==> (views(keys@).contains(x) && keeps(
                x,
                match prefix {
                    Some(p) => Some(p@),
                    None => None,
                },
                width as nat,
            )),
{
    let ghost pspec: Option<Seq<u8>> = match prefix {
        Some(p) => Some(p@),
        None => None,
    };
    let mut r: Vec<Vec<u8>> = Vec::new();
    let mut i: usize = 0;
    loop
        invariant
            i <= keys@.len(),
            sorted_strict(views(keys@)),
            match prefix {
                Some(p) => forall|k: int|
                    0 <= k < keys@.len() ==> lex_le(p@, #[trigger] views(keys@)[k]),
                None => true,
            },
            pspec == (match prefix {
                Some(p) => Some(p@),
                None => None,
            }),
            sorted_strict(views(r@)),
            all_len(views(r@), width as nat),
            forall|x: Seq<u8>|
                #[trigger] views(r@).contains(x) <==> (exists|k: int|
                    0 <= k < i && views(keys@)[k] == x && keeps(x, pspec, width as nat)),
            forall|k: int| i <= k < keys@.len() ==> !views(r@).contains(#[trigger] views(keys@)[k]),
        ensures
            i == keys@.len(),
        decreases keys@.len() - i,
    {
        if i == keys.len() {
            break ;
        }
        let key = &keys[i];
        let ghost b = views(keys@)[i as int];
        proof {
            assert(b == keys@[i as int]@);
        }
        match prefix {
            Some(p) => {
                if !has_prefix(key, p) {
                    // ascending order: no later key begins with the prefix
                    proof {
                        assert forall|x: Seq<u8>|
                            #[trigger] views(r@).contains(x) <==> (views(keys@).contains(x)
                                && keeps(x, pspec, width as nat)) by {
                            if views(keys@).contains(x) && keeps(x, pspec, width as nat) {
                                let k = choose|k: int|
                                    0 <= k < keys@.len() && views(keys@)[k] == x;
                                if k >= i {
                                    lemma_prefix_run_ends(p@, b, x);
                                    if k > i {
                                        assert(lex_lt(views(keys@)[i as int], views(keys@)[k]));
                                        crate::order::lemma_lex_antisymmetric(x, b);
                                    }
                                    assert(false);
                                } else {
                                    assert(views(r@).contains(x));
                                }
                            }
                            if views(r@).contains(x) {
                                let k = choose|k: int|
                                    0 <= k < i && views(keys@)[k] == x && keeps(
                                        x,
                                        pspec,
                                        width as nat,
                                    );
                                assert(views(keys@).contains(x));
                            }
                        }
                    }
                    return r;
                }
            },
            None => {},
        }
        let kept = key.len() == width;
        let ghost rv = views(r@);
        if kept {
            let c = clone_bytes(key);
            proof {
                assert forall|y: Seq<u8>| rv.contains(y) implies lex_lt(y, b) by {
                    let k = choose|k: int|
                        0 <= k < i && views(keys@)[k] == y && keeps(y, pspec, width as nat);
                    assert(lex_lt(views(keys@)[k], views(keys@)[i as int]));
                }
            }
            r.push(c);
            proof {
                assert(views(r@) =~= rv.push(b));
                assert forall|a2: int, b2: int|
                    0 <= a2 < b2 < views(r@).len() implies lex_lt(views(r@)[a2], views(r@)[b2]) by {
                    if b2 < rv.len() {
                        assert(lex_lt(rv[a2], rv[b2]));
                    } else {
                        assert(views(r@)[b2] == b);
                        assert(rv.contains(rv[a2]));
                    }
                }
            }
        }
        proof {
            if kept {
                assert(b.len() == width as nat);
                assert(keeps(b, pspec, width as nat));
                assert(views(r@) == rv.push(b));
            } else {
                assert(b.len() != width as nat);
                assert(views(r@) == rv);
            }
            assert forall|x: Seq<u8>|
                #[trigger] views(r@).contains(x) implies (exists|k: int|
                    0 <= k < i + 1 && views(keys@)[k] == x && keeps(x, pspec, width as nat)) by {
                if kept {
                    let idx = choose|idx: int| 0 <= idx < views(r@).len() && views(r@)[idx] == x;
                    if idx < rv.len() {
                        assert(rv.contains(x));
                    } else {
                        assert(x == b);
                        assert(0 <= i < i + 1 && views(keys@)[i as int] == x);
                    }
                }
            }
            assert forall|x: Seq<u8>|
                (exists|k: int| 0 <= k < i + 1 && views(keys@)[k] == x && keeps(x, pspec, width as nat))
                implies #[trigger] views(r@).contains(x) by {
                let k = choose|k: int|
                    0 <= k < i + 1 && views(keys@)[k] == x && keeps(x, pspec, width as nat);
                if k < i {
                    assert(rv.contains(x));
                    if kept {
                        let idx = choose|idx: int| 0 <= idx < rv.len() && rv[idx] == x;
                        assert(views(r@)[idx] == x);
                    }
                } else {
                    assert(x == b);
                    assert(keeps(b, pspec, width as nat));
                    assert(kept);
                    assert(views(r@)[rv.len() as int] == b);
                }
            }
            assert forall|k: int|
                i + 1 <= k < keys@.len() implies !views(r@).contains(
                #[trigger] views(keys@)[k],
            ) by {
                if views(r@).contains(views(keys@)[k]) {
                    let kk = choose|kk: int|
                        0 <= kk < i + 1 && views(keys@)[kk] == views(keys@)[k] && keeps(
                            views(keys@)[k],
                            pspec,
                            width as nat,
                        );
                    assert(lex_lt(views(keys@)[kk], views(keys@)[k]));
                }
            }
        }
        i = i + 1;
    }
    proof {
        assert forall|x: Seq<u8>|
            #[trigger] views(r@).contains(x) <==> (views(keys@).contains(x) && keeps(
                x,
                pspec,
                width as nat,
            )) by {
            if views(keys@).contains(x) && keeps(x, pspec, width as nat) {
                let k = choose|k: int| 0 <= k < keys@.len() && views(keys@)[k] == x;
                assert(0 <= k < i && views(keys@)[k] == x);
            }
            if views(r@).contains(x) {
                let k = choose|k: int|
                    0 <= k < i && views(keys@)[k] == x && keeps(x, pspec, width as nat);
                assert(views(keys@).contains(x));
            }
        }
    }
    r
}

} // verus!
