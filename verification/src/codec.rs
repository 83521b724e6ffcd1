//! The stable text encoding of blocks: an exact grammar with named fields
//! and length-prefixed strings, an executable printer and parser, and the
//! round-trip law between them.

use vstd::prelude::*;
use crate::digits::{dec, parse_u64_at, u64_to_string, is_digit};
use crate::block::{Block, BlockView, Validator, BlockChain};

verus! {

/// The encoding of one string field: its length in decimal, a colon, then
/// the characters themselves. The length prefix makes the field
/// self-delimiting whatever characters it holds.
pub open spec fn ser_str(s: Seq<char>) -> Seq<char> {
    dec(s.len()) + ":"@ + s
}

/// The encoding of an optional string: `-` when absent, `+` and the string
/// when present.
pub open spec fn ser_opt(o: Option<Seq<char>>) -> Seq<char> {
    match o {
        None => "-"@,
        Some(s) => "+"@ + ser_str(s),
    }
}

/// The first quarter of a block's encoding: index and timestamp.
#[verifier::opaque]
pub open spec fn ser_h1(index: u64, ts: Seq<char>) -> Seq<char> {
    "index="@ + dec(index as nat) + ";timestamp="@ + ser_str(ts)
}

/// The second quarter: payload and content hash.
#[verifier::opaque]
pub open spec fn ser_h2(bpm: Seq<char>, h: Seq<char>) -> Seq<char> {
    ";bpm="@ + ser_str(bpm) + ";hash="@ + ser_str(h)
}

/// The third quarter: predecessor hash and proposer address.
#[verifier::opaque]
pub open spec fn ser_t1(prev: Option<Seq<char>>, addr: Seq<char>) -> Seq<char> {
    ";prev_hash="@ + ser_opt(prev) + ";address="@ + ser_str(addr)
}

/// The last quarter: the proposer's stake and the closing separator.
#[verifier::opaque]
pub open spec fn ser_t2(stake: u64) -> Seq<char> {
    ";stake="@ + dec(stake as nat) + ";"@
}

/// The encoding of one block: every field under its name, strings length-
/// prefixed, fields in a fixed order.
pub open spec fn ser_block(b: BlockView) -> Seq<char> {
    ser_h1(b.index, b.timestamp) + ser_h2(b.bpm, b.hash) + ser_t1(b.prev_hash, b.validator.address)
        + ser_t2(b.validator.stake)
}

/// Two adjacent subranges concatenate to the enclosing one.
pub proof fn lemma_glue(s: Seq<char>, a: int, m: int, b: int)
    requires
        0 <= a <= m <= b <= s.len(),
    ensures
        s.subrange(a, b) == s.subrange(a, m) + s.subrange(m, b),
{
    assert(s.subrange(a, b) =~= s.subrange(a, m) + s.subrange(m, b));
}

/// A subrange equal to a concatenation splits at the seam.
pub proof fn lemma_split(s: Seq<char>, pos: int, x: Seq<char>, y: Seq<char>)
    requires
        0 <= pos,
        pos + x.len() + y.len() <= s.len(),
        s.subrange(pos, pos + x.len() + y.len()) == x + y,
    ensures
        s.subrange(pos, pos + x.len()) == x,
        s.subrange(pos + x.len(), pos + x.len() + y.len()) == y,
{
    let xl = x.len() as int;
    let yl = y.len() as int;
    assert forall|i: int| 0 <= i < xl implies s[pos + i] == x[i] by {
        assert((x + y)[i] == x[i]);
        assert(s.subrange(pos, pos + xl + yl)[i] == s[pos + i]);
    }
    assert(s.subrange(pos, pos + xl) =~= x);
    assert forall|i: int| 0 <= i < yl implies s[pos + xl + i] == y[i] by {
        assert((x + y)[xl + i] == y[i]);
        assert(s.subrange(pos, pos + xl + yl)[xl + i] == s[pos + xl + i]);
    }
    assert(s.subrange(pos + xl, pos + xl + yl) =~= y);
}

/// Checks that the text at `pos` is exactly the literal `lit`; on success
/// the returned position sits right after it.
fn lit_at(s: &str, pos: usize, lit: &str) -> (r: Option<usize>)
    requires
        pos <= s@.len(),
    ensures
        match r {
            Some(p) => {
                &&& p == pos + lit@.len()
                &&& p <= s@.len()
                &&& s@.subrange(pos as int, p as int) == lit@
            },
            None => !(pos + lit@.len() <= s@.len() && s@.subrange(
                pos as int,
                pos + lit@.len(),
            ) == lit@),
        },
{
    let llen: usize = lit.unicode_len();
    let slen: usize = s.unicode_len();
    if llen > slen - pos {
        return None;
    }
    let mut j: usize = 0;
    while j < llen
        invariant
            pos + llen <= slen,
            slen == s@.len(),
            llen == lit@.len(),
            j <= llen,
            forall|k: int| 0 <= k < j ==> s@[pos + k] == lit@[k],
        decreases llen - j,
    {
        if s.get_char(pos + j) != lit.get_char(j) {
            proof {
                if pos + lit@.len() <= s@.len() && s@.subrange(pos as int, pos + lit@.len())
                    == lit@ {
                    assert(s@.subrange(pos as int, pos + lit@.len())[j as int] == s@[pos + j]);
                }
            }
            return None;
        }
        j = j + 1;
    }
    proof {
        assert(s@.subrange(pos as int, (pos + llen) as int) =~= lit@);
    }
    Some(pos + llen)
}

/// Reads one length-prefixed string field starting at `pos`. On success the
/// characters read are exactly the encoding of the returned string; and
/// whenever the text at `pos` holds the encoding of some string, that string
/// is returned.
fn parse_str_at(s: &str, pos: usize) -> (r: Option<(String, usize)>)
    requires
        pos <= s@.len(),
    ensures
        match r {
            Some(tp) => pos < tp.1 <= s@.len() && s@.subrange(pos as int, tp.1 as int) == ser_str(
                tp.0@,
            ),
            None => true,
        },
        forall|t: Seq<char>|
            {
                &&& pos + (#[trigger] ser_str(t)).len() <= s@.len()
                &&& s@.subrange(pos as int, pos + ser_str(t).len()) == ser_str(t)
            } ==> match r {
            Some(tp) => tp.0@ == t && tp.1 == pos + ser_str(t).len(),
            None => false,
        },
{
    let slen: usize = s.unicode_len();
    proof {
        reveal_strlit(":");
    }
    let parsed = parse_u64_at(s, pos);
    let (l64, p1): (u64, usize) = match parsed {
        Some(x) => x,
        None => {
            proof {
                assert forall|t: Seq<char>|
                    {
                        &&& pos + (#[trigger] ser_str(t)).len() <= s@.len()
                        &&& s@.subrange(pos as int, pos + ser_str(t).len()) == ser_str(t)
                    } implies false by {
                    lemma_str_hyp_pins(s@, pos as int, t);
                }
            }
            return None;
        },
    };
    if p1 >= slen || s.get_char(p1) != ':' {
        proof {
            assert forall|t: Seq<char>|
                {
                    &&& pos + (#[trigger] ser_str(t)).len() <= s@.len()
                    &&& s@.subrange(pos as int, pos + ser_str(t).len()) == ser_str(t)
                } implies false by {
                lemma_str_hyp_pins(s@, pos as int, t);
            }
        }
        return None;
    }
    let p2: usize = p1 + 1;
    let avail: usize = slen - p2;
    if l64 > avail as u64 {
        proof {
            assert forall|t: Seq<char>|
                {
                    &&& pos + (#[trigger] ser_str(t)).len() <= s@.len()
                    &&& s@.subrange(pos as int, pos + ser_str(t).len()) == ser_str(t)
                } implies false by {
                lemma_str_hyp_pins(s@, pos as int, t);
            }
        }
        return None;
    }
    let l: usize = l64 as usize;
    let end: usize = p2 + l;
    let t: String = s.substring_char(p2, end).to_owned();
    proof {
        // the pieces read glue back to exactly ser_str(t@)
        assert(s@.subrange(p1 as int, p2 as int) =~= ":"@);
        lemma_glue(s@, p1 as int, p2 as int, end as int);
        lemma_glue(s@, pos as int, p1 as int, end as int);
        assert(s@.subrange(pos as int, end as int) =~= ser_str(t@));
        assert forall|tv: Seq<char>|
            {
                &&& pos + (#[trigger] ser_str(tv)).len() <= s@.len()
                &&& s@.subrange(pos as int, pos + ser_str(tv).len()) == ser_str(tv)
            } implies t@ == tv && end == pos + ser_str(tv).len() by {
            lemma_str_hyp_pins(s@, pos as int, tv);
            assert(s@.subrange(p2 as int, end as int) =~= tv);
        }
    }
    Some((t, end))
}

/// From the hypothesis that the encoding of `t` sits at `pos`, pins down the
/// numeral, the colon, and the raw characters, piece by piece.
proof fn lemma_str_hyp_pins(s: Seq<char>, pos: int, t: Seq<char>)
    requires
        0 <= pos,
        pos + ser_str(t).len() <= s.len(),
        s.subrange(pos, pos + ser_str(t).len()) == ser_str(t),
    ensures
        s.subrange(pos, pos + dec(t.len()).len()) == dec(t.len()),
        s[pos + dec(t.len()).len()] == ':',
        !is_digit(s[pos + dec(t.len()).len()]),
        s.subrange(
            pos + dec(t.len()).len() + 1,
            pos + dec(t.len()).len() + 1 + t.len(),
        ) == t,
        t.len() <= u64::MAX ==> dec((t.len() as u64) as nat) == dec(t.len()),
{
    reveal_strlit(":");
    let d = dec(t.len());
    assert(ser_str(t) =~= d + (":"@ + t));
    lemma_split(s, pos, d, ":"@ + t);
    lemma_split(s, pos + d.len(), ":"@, t);
    assert(s.subrange(pos + d.len(), pos + d.len() + 1)[0] == s[pos + d.len()]);
}

pub open spec fn opt_seq_view(o: Option<String>) -> Option<Seq<char>> {
    match o {
        Some(p) => Some(p@),
        None => None,
    }
}

/// Reads one optional string field: `-` for absent, `+` and a string for
/// present.
fn parse_opt_at(s: &str, pos: usize) -> (r: Option<(Option<String>, usize)>)
    requires
        pos <= s@.len(),
    ensures
        match r {
            Some(tp) => pos < tp.1 <= s@.len() && s@.subrange(pos as int, tp.1 as int) == ser_opt(
                opt_seq_view(tp.0),
            ),
            None => true,
        },
        forall|o: Option<Seq<char>>|
            {
                &&& pos + (#[trigger] ser_opt(o)).len() <= s@.len()
                &&& s@.subrange(pos as int, pos + ser_opt(o).len()) == ser_opt(o)
            } ==> match r {
            Some(tp) => opt_seq_view(tp.0) == o && tp.1 == pos + ser_opt(o).len(),
            None => false,
        },
{
    let slen: usize = s.unicode_len();
    proof {
        reveal_strlit("-");
        reveal_strlit("+");
    }
    if pos < slen && s.get_char(pos) == '-' {
        proof {
            assert(s@.subrange(pos as int, pos + 1) =~= "-"@);
            assert forall|o: Option<Seq<char>>|
                {
                    &&& pos + (#[trigger] ser_opt(o)).len() <= s@.len()
                    &&& s@.subrange(pos as int, pos + ser_opt(o).len()) == ser_opt(o)
                } implies opt_seq_view(None::<String>) == o && pos + 1 == pos + ser_opt(o).len()
                by {
                assert(s@.subrange(pos as int, pos + ser_opt(o).len())[0] == s@[pos as int]);
                if o is Some {
                    assert(ser_opt(o)[0] == '+');
                }
            }
        }
        return Some((None, pos + 1));
    }
    if pos < slen && s.get_char(pos) == '+' {
        let inner = parse_str_at(s, pos + 1);
        match inner {
            Some((t, p)) => {
                proof {
                    assert(s@.subrange(pos as int, pos + 1) =~= "+"@);
                    lemma_glue(s@, pos as int, pos + 1, p as int);
                    assert(s@.subrange(pos as int, p as int) =~= ser_opt(Some(t@)));
                    assert forall|o: Option<Seq<char>>|
                        {
                            &&& pos + (#[trigger] ser_opt(o)).len() <= s@.len()
                            &&& s@.subrange(pos as int, pos + ser_opt(o).len()) == ser_opt(o)
                        } implies opt_seq_view(Some(t)) == o && p == pos + ser_opt(o).len() by {
                        assert(s@.subrange(pos as int, pos + ser_opt(o).len())[0]
                            == s@[pos as int]);
                        match o {
                            None => {
                                assert(ser_opt(o)[0] == '-');
                            },
                            Some(tv) => {
                                assert(ser_opt(o) =~= "+"@ + ser_str(tv));
                                lemma_split(s@, pos as int, "+"@, ser_str(tv));
                            },
                        }
                    }
                }
                Some((Some(t), p))
            },
            None => {
                proof {
                    assert forall|o: Option<Seq<char>>|
                        {
                            &&& pos + (#[trigger] ser_opt(o)).len() <= s@.len()
                            &&& s@.subrange(pos as int, pos + ser_opt(o).len()) == ser_opt(o)
                        } implies false by {
                        assert(s@.subrange(pos as int, pos + ser_opt(o).len())[0]
                            == s@[pos as int]);
                        match o {
                            None => {
                                assert(ser_opt(o)[0] == '-');
                            },
                            Some(tv) => {
                                assert(ser_opt(o) =~= "+"@ + ser_str(tv));
                                lemma_split(s@, pos as int, "+"@, ser_str(tv));
                            },
                        }
                    }
                }
                None
            },
        }
    } else {
        proof {
            assert forall|o: Option<Seq<char>>|
                {
                    &&& pos + (#[trigger] ser_opt(o)).len() <= s@.len()
                    &&& s@.subrange(pos as int, pos + ser_opt(o).len()) == ser_opt(o)
                } implies false by {
                assert(s@.subrange(pos as int, pos + ser_opt(o).len())[0] == s@[pos as int]);
                match o {
                    None => {
                        assert(ser_opt(o)[0] == '-');
                    },
                    Some(tv) => {
                        assert(ser_opt(o) =~= "+"@ + ser_str(tv));
                        assert(ser_opt(o)[0] == '+');
                    },
                }
            }
        }
        None
    }
}

} // verus!

verus! {

/// Pins the pieces of a first-quarter encoding sitting at `pos`.
#[verifier::rlimit(100)]
#[verifier::spinoff_prover]
pub proof fn lemma_h1_pieces(s: Seq<char>, pos: int, index: u64, ts: Seq<char>)
    requires
        0 <= pos,
        pos + ser_h1(index, ts).len() <= s.len(),
        s.subrange(pos, pos + ser_h1(index, ts).len()) == ser_h1(index, ts),
    ensures
        ({
            let a1 = pos + "index="@.len();
            let a2 = a1 + dec(index as nat).len();
            let a3 = a2 + ";timestamp="@.len();
            let a4 = a3 + ser_str(ts).len();
            &&& s.subrange(pos, a1) == "index="@
            &&& s.subrange(a1, a2) == dec(index as nat)
            &&& !is_digit(s[a2])
            &&& s.subrange(a2, a3) == ";timestamp="@
            &&& s.subrange(a3, a4) == ser_str(ts)
            &&& a4 == pos + ser_h1(index, ts).len()
        }),
{
    let p1 = "index="@;
    let p2 = dec(index as nat);
    let p3 = ";timestamp="@;
    let p4 = ser_str(ts);
    reveal(crate::codec::ser_h1);
    let r3 = p3 + p4;
    let r2 = p2 + r3;
    assert(ser_h1(index, ts) =~= p1 + r2);
    let a1 = pos + p1.len();
    let a2 = a1 + p2.len();
    let a3 = a2 + p3.len();
    lemma_split(s, pos, p1, r2);
    lemma_split(s, a1, p2, r3);
    lemma_split(s, a2, p3, p4);
    reveal_strlit(";timestamp=");
    assert(s.subrange(a2, a3)[0] == s[a2]);
    assert(s[a2] == ';');
}

/// Pins the pieces of a second-quarter encoding sitting at `pos`.
#[verifier::rlimit(100)]
#[verifier::spinoff_prover]
pub proof fn lemma_h2_pieces(s: Seq<char>, pos: int, bpm: Seq<char>, h: Seq<char>)
    requires
        0 <= pos,
        pos + ser_h2(bpm, h).len() <= s.len(),
        s.subrange(pos, pos + ser_h2(bpm, h).len()) == ser_h2(bpm, h),
    ensures
        ({
            let a1 = pos + ";bpm="@.len();
            let a2 = a1 + ser_str(bpm).len();
            let a3 = a2 + ";hash="@.len();
            let a4 = a3 + ser_str(h).len();
            &&& s.subrange(pos, a1) == ";bpm="@
            &&& s.subrange(a1, a2) == ser_str(bpm)
            &&& s.subrange(a2, a3) == ";hash="@
            &&& s.subrange(a3, a4) == ser_str(h)
            &&& a4 == pos + ser_h2(bpm, h).len()
        }),
{
    let p1 = ";bpm="@;
    let p2 = ser_str(bpm);
    let p3 = ";hash="@;
    let p4 = ser_str(h);
    reveal(crate::codec::ser_h2);
    let r3 = p3 + p4;
    let r2 = p2 + r3;
    assert(ser_h2(bpm, h) =~= p1 + r2);
    let a1 = pos + p1.len();
    let a2 = a1 + p2.len();
    lemma_split(s, pos, p1, r2);
    lemma_split(s, a1, p2, r3);
    lemma_split(s, a2, p3, p4);
}

/// Pins the pieces of a third-quarter encoding sitting at `pos`.
#[verifier::rlimit(100)]
#[verifier::spinoff_prover]
pub proof fn lemma_t1_pieces(s: Seq<char>, pos: int, prev: Option<Seq<char>>, addr: Seq<char>)
    requires
        0 <= pos,
        pos + ser_t1(prev, addr).len() <= s.len(),
        s.subrange(pos, pos + ser_t1(prev, addr).len()) == ser_t1(prev, addr),
    ensures
        ({
            let a1 = pos + ";prev_hash="@.len();
            let a2 = a1 + ser_opt(prev).len();
            let a3 = a2 + ";address="@.len();
            let a4 = a3 + ser_str(addr).len();
            &&& s.subrange(pos, a1) == ";prev_hash="@
            &&& s.subrange(a1, a2) == ser_opt(prev)
            &&& s.subrange(a2, a3) == ";address="@
            &&& s.subrange(a3, a4) == ser_str(addr)
            &&& a4 == pos + ser_t1(prev, addr).len()
        }),
{
    let p1 = ";prev_hash="@;
    let p2 = ser_opt(prev);
    let p3 = ";address="@;
    let p4 = ser_str(addr);
    reveal(crate::codec::ser_t1);
    let r3 = p3 + p4;
    let r2 = p2 + r3;
    assert(ser_t1(prev, addr) =~= p1 + r2);
    let a1 = pos + p1.len();
    let a2 = a1 + p2.len();
    lemma_split(s, pos, p1, r2);
    lemma_split(s, a1, p2, r3);
    lemma_split(s, a2, p3, p4);
}

/// Pins the pieces of a last-quarter encoding sitting at `pos`.
#[verifier::rlimit(100)]
#[verifier::spinoff_prover]
pub proof fn lemma_t2_pieces(s: Seq<char>, pos: int, stake: u64)
    requires
        0 <= pos,
        pos + ser_t2(stake).len() <= s.len(),
        s.subrange(pos, pos + ser_t2(stake).len()) == ser_t2(stake),
    ensures
        ({
            let a1 = pos + ";stake="@.len();
            let a2 = a1 + dec(stake as nat).len();
            let a3 = a2 + ";"@.len();
            &&& s.subrange(pos, a1) == ";stake="@
            &&& s.subrange(a1, a2) == dec(stake as nat)
            &&& !is_digit(s[a2])
            &&& s.subrange(a2, a3) == ";"@
            &&& a3 == pos + ser_t2(stake).len()
        }),
{
    let p1 = ";stake="@;
    let p2 = dec(stake as nat);
    let p3 = ";"@;
    reveal(crate::codec::ser_t2);
    let r2 = p2 + p3;
    assert(ser_t2(stake) =~= p1 + r2);
    let a1 = pos + p1.len();
    let a2 = a1 + p2.len();
    lemma_split(s, pos, p1, r2);
    lemma_split(s, a1, p2, p3);
    reveal_strlit(";");
    assert(s.subrange(a2, a2 + p3.len())[0] == s[a2]);
    assert(s[a2] == ';');
}

} // verus!

verus! {

/// Reads the first quarter of a block encoding, two-sided.
#[verifier::rlimit(100)]
#[verifier::spinoff_prover]
fn parse_h1_at(s: &str, pos: usize) -> (r: Option<(u64, String, usize)>)
    requires
        pos <= s@.len(),
    ensures
        match r {
            Some(x) => pos < x.2 <= s@.len() && s@.subrange(pos as int, x.2 as int) == ser_h1(
                x.0,
                x.1@,
            ),
            None => true,
        },
        forall|index: u64, ts: Seq<char>|
            {
                &&& pos + (#[trigger] ser_h1(index, ts)).len() <= s@.len()
                &&& s@.subrange(pos as int, pos + ser_h1(index, ts).len()) == ser_h1(index, ts)
            } ==> match r {
            Some(x) => x.0 == index && x.1@ == ts && x.2 == pos + ser_h1(index, ts).len(),
            None => false,
        },
{
    let k1 = match lit_at(s, pos, "index=") {
        Some(p) => p,
        None => {
            proof {
                assert forall|index: u64, ts: Seq<char>|
                    {
                        &&& pos + (#[trigger] ser_h1(index, ts)).len() <= s@.len()
                        &&& s@.subrange(pos as int, pos + ser_h1(index, ts).len()) == ser_h1(
                            index,
                            ts,
                        )
                    } implies false by {
                    lemma_h1_pieces(s@, pos as int, index, ts);
                }
            }
            return None;
        },
    };
    let (index, k2): (u64, usize) = match parse_u64_at(s, k1) {
        Some(x) => x,
        None => {
            proof {
                assert forall|index: u64, ts: Seq<char>|
                    {
                        &&& pos + (#[trigger] ser_h1(index, ts)).len() <= s@.len()
                        &&& s@.subrange(pos as int, pos + ser_h1(index, ts).len()) == ser_h1(
                            index,
                            ts,
                        )
                    } implies false by {
                    lemma_h1_pieces(s@, pos as int, index, ts);
                }
            }
            return None;
        },
    };
    let k3 = match lit_at(s, k2, ";timestamp=") {
        Some(p) => p,
        None => {
            proof {
                assert forall|index: u64, ts: Seq<char>|
                    {
                        &&& pos + (#[trigger] ser_h1(index, ts)).len() <= s@.len()
                        &&& s@.subrange(pos as int, pos + ser_h1(index, ts).len()) == ser_h1(
                            index,
                            ts,
                        )
                    } implies false by {
                    lemma_h1_pieces(s@, pos as int, index, ts);
                }
            }
            return None;
        },
    };
    let (ts, k4): (String, usize) = match parse_str_at(s, k3) {
        Some(x) => x,
        None => {
            proof {
                assert forall|index: u64, ts: Seq<char>|
                    {
                        &&& pos + (#[trigger] ser_h1(index, ts)).len() <= s@.len()
                        &&& s@.subrange(pos as int, pos + ser_h1(index, ts).len()) == ser_h1(
                            index,
                            ts,
                        )
                    } implies false by {
                    lemma_h1_pieces(s@, pos as int, index, ts);
                }
            }
            return None;
        },
    };
    proof {
        lemma_glue(s@, k2 as int, k3 as int, k4 as int);
        lemma_glue(s@, k1 as int, k2 as int, k4 as int);
        lemma_glue(s@, pos as int, k1 as int, k4 as int);
        assert(s@.subrange(pos as int, k4 as int) =~= ser_h1(index, ts@)) by {
            reveal(crate::codec::ser_h1);
        }
        assert forall|iv: u64, tv: Seq<char>|
            {
                &&& pos + (#[trigger] ser_h1(iv, tv)).len() <= s@.len()
                &&& s@.subrange(pos as int, pos + ser_h1(iv, tv).len()) == ser_h1(iv, tv)
            } implies index == iv && ts@ == tv && k4 == pos + ser_h1(iv, tv).len() by {
            lemma_h1_pieces(s@, pos as int, iv, tv);
        }
    }
    Some((index, ts, k4))
}

/// Reads the second quarter of a block encoding, two-sided.
#[verifier::rlimit(100)]
#[verifier::spinoff_prover]
fn parse_h2_at(s: &str, pos: usize) -> (r: Option<(String, String, usize)>)
    requires
        pos <= s@.len(),
    ensures
        match r {
            Some(x) => pos < x.2 <= s@.len() && s@.subrange(pos as int, x.2 as int) == ser_h2(
                x.0@,
                x.1@,
            ),
            None => true,
        },
        forall|bpm: Seq<char>, h: Seq<char>|
            {
                &&& pos + (#[trigger] ser_h2(bpm, h)).len() <= s@.len()
                &&& s@.subrange(pos as int, pos + ser_h2(bpm, h).len()) == ser_h2(bpm, h)
            } ==> match r {
            Some(x) => x.0@ == bpm && x.1@ == h && x.2 == pos + ser_h2(bpm, h).len(),
            None => false,
        },
{
    let k1 = match lit_at(s, pos, ";bpm=") {
        Some(p) => p,
        None => {
            proof {
                assert forall|bpm: Seq<char>, h: Seq<char>|
                    {
                        &&& pos + (#[trigger] ser_h2(bpm, h)).len() <= s@.len()
                        &&& s@.subrange(pos as int, pos + ser_h2(bpm, h).len()) == ser_h2(bpm, h)
                    } implies false by {
                    lemma_h2_pieces(s@, pos as int, bpm, h);
                }
            }
            return None;
        },
    };
    let (bpm, k2): (String, usize) = match parse_str_at(s, k1) {
        Some(x) => x,
        None => {
            proof {
                assert forall|bpm: Seq<char>, h: Seq<char>|
                    {
                        &&& pos + (#[trigger] ser_h2(bpm, h)).len() <= s@.len()
                        &&& s@.subrange(pos as int, pos + ser_h2(bpm, h).len()) == ser_h2(bpm, h)
                    } implies false by {
                    lemma_h2_pieces(s@, pos as int, bpm, h);
                }
            }
            return None;
        },
    };
    let k3 = match lit_at(s, k2, ";hash=") {
        Some(p) => p,
        None => {
            proof {
                assert forall|bpm: Seq<char>, h: Seq<char>|
                    {
                        &&& pos + (#[trigger] ser_h2(bpm, h)).len() <= s@.len()
                        &&& s@.subrange(pos as int, pos + ser_h2(bpm, h).len()) == ser_h2(bpm, h)
                    } implies false by {
                    lemma_h2_pieces(s@, pos as int, bpm, h);
                }
            }
            return None;
        },
    };
    let (h, k4): (String, usize) = match parse_str_at(s, k3) {
        Some(x) => x,
        None => {
            proof {
                assert forall|bpm: Seq<char>, h: Seq<char>|
                    {
                        &&& pos + (#[trigger] ser_h2(bpm, h)).len() <= s@.len()
                        &&& s@.subrange(pos as int, pos + ser_h2(bpm, h).len()) == ser_h2(bpm, h)
                    } implies false by {
                    lemma_h2_pieces(s@, pos as int, bpm, h);
                }
            }
            return None;
        },
    };
    proof {
        lemma_glue(s@, k2 as int, k3 as int, k4 as int);
        lemma_glue(s@, k1 as int, k2 as int, k4 as int);
        lemma_glue(s@, pos as int, k1 as int, k4 as int);
        assert(s@.subrange(pos as int, k4 as int) =~= ser_h2(bpm@, h@)) by {
            reveal(crate::codec::ser_h2);
        }
        assert forall|bv: Seq<char>, hv: Seq<char>|
            {
                &&& pos + (#[trigger] ser_h2(bv, hv)).len() <= s@.len()
                &&& s@.subrange(pos as int, pos + ser_h2(bv, hv).len()) == ser_h2(bv, hv)
            } implies bpm@ == bv && h@ == hv && k4 == pos + ser_h2(bv, hv).len() by {
            lemma_h2_pieces(s@, pos as int, bv, hv);
        }
    }
    Some((bpm, h, k4))
}

/// Reads the third quarter of a block encoding, two-sided.
#[verifier::rlimit(100)]
#[verifier::spinoff_prover]
fn parse_t1_at(s: &str, pos: usize) -> (r: Option<(Option<String>, String, usize)>)
    requires
        pos <= s@.len(),
    ensures
        match r {
            Some(x) => pos < x.2 <= s@.len() && s@.subrange(pos as int, x.2 as int) == ser_t1(
                opt_seq_view(x.0),
                x.1@,
            ),
            None => true,
        },
        forall|prev: Option<Seq<char>>, addr: Seq<char>|
            {
                &&& pos + (#[trigger] ser_t1(prev, addr)).len() <= s@.len()
                &&& s@.subrange(pos as int, pos + ser_t1(prev, addr).len()) == ser_t1(prev, addr)
            } ==> match r {
            Some(x) => opt_seq_view(x.0) == prev && x.1@ == addr && x.2 == pos + ser_t1(
                prev,
                addr,
            ).len(),
            None => false,
        },
{
    let k1 = match lit_at(s, pos, ";prev_hash=") {
        Some(p) => p,
        None => {
            proof {
                assert forall|prev: Option<Seq<char>>, addr: Seq<char>|
                    {
                        &&& pos + (#[trigger] ser_t1(prev, addr)).len() <= s@.len()
                        &&& s@.subrange(pos as int, pos + ser_t1(prev, addr).len()) == ser_t1(
                            prev,
                            addr,
                        )
                    } implies false by {
                    lemma_t1_pieces(s@, pos as int, prev, addr);
                }
            }
            return None;
        },
    };
    let (prev_hash, k2): (Option<String>, usize) = match parse_opt_at(s, k1) {
        Some(x) => x,
        None => {
            proof {
                assert forall|prev: Option<Seq<char>>, addr: Seq<char>|
                    {
                        &&& pos + (#[trigger] ser_t1(prev, addr)).len() <= s@.len()
                        &&& s@.subrange(pos as int, pos + ser_t1(prev, addr).len()) == ser_t1(
                            prev,
                            addr,
                        )
                    } implies false by {
                    lemma_t1_pieces(s@, pos as int, prev, addr);
                }
            }
            return None;
        },
    };
    let k3 = match lit_at(s, k2, ";address=") {
        Some(p) => p,
        None => {
            proof {
                assert forall|prev: Option<Seq<char>>, addr: Seq<char>|
                    {
                        &&& pos + (#[trigger] ser_t1(prev, addr)).len() <= s@.len()
                        &&& s@.subrange(pos as int, pos + ser_t1(prev, addr).len()) == ser_t1(
                            prev,
                            addr,
                        )
                    } implies false by {
                    lemma_t1_pieces(s@, pos as int, prev, addr);
                }
            }
            return None;
        },
    };
    let (address, k4): (String, usize) = match parse_str_at(s, k3) {
        Some(x) => x,
        None => {
            proof {
                assert forall|prev: Option<Seq<char>>, addr: Seq<char>|
                    {
                        &&& pos + (#[trigger] ser_t1(prev, addr)).len() <= s@.len()
                        &&& s@.subrange(pos as int, pos + ser_t1(prev, addr).len()) == ser_t1(
                            prev,
                            addr,
                        )
                    } implies false by {
                    lemma_t1_pieces(s@, pos as int, prev, addr);
                }
            }
            return None;
        },
    };
    proof {
        lemma_glue(s@, k2 as int, k3 as int, k4 as int);
        lemma_glue(s@, k1 as int, k2 as int, k4 as int);
        lemma_glue(s@, pos as int, k1 as int, k4 as int);
        assert(s@.subrange(pos as int, k4 as int) =~= ser_t1(opt_seq_view(prev_hash), address@))
            by {
            reveal(crate::codec::ser_t1);
        }
        assert forall|pv: Option<Seq<char>>, av: Seq<char>|
            {
                &&& pos + (#[trigger] ser_t1(pv, av)).len() <= s@.len()
                &&& s@.subrange(pos as int, pos + ser_t1(pv, av).len()) == ser_t1(pv, av)
            } implies opt_seq_view(prev_hash) == pv && address@ == av && k4 == pos + ser_t1(
            pv,
            av,
        ).len() by {
            lemma_t1_pieces(s@, pos as int, pv, av);
        }
    }
    Some((prev_hash, address, k4))
}

/// Reads the last quarter of a block encoding, two-sided.
#[verifier::rlimit(100)]
#[verifier::spinoff_prover]
fn parse_t2_at(s: &str, pos: usize) -> (r: Option<(u64, usize)>)
    requires
        pos <= s@.len(),
    ensures
        match r {
            Some(x) => pos < x.1 <= s@.len() && s@.subrange(pos as int, x.1 as int) == ser_t2(
                x.0,
            ),
            None => true,
        },
        forall|stake: u64|
            {
                &&& pos + (#[trigger] ser_t2(stake)).len() <= s@.len()
                &&& s@.subrange(pos as int, pos + ser_t2(stake).len()) == ser_t2(stake)
            } ==> match r {
            Some(x) => x.0 == stake && x.1 == pos + ser_t2(stake).len(),
            None => false,
        },
{
    let k1 = match lit_at(s, pos, ";stake=") {
        Some(p) => p,
        None => {
            proof {
                assert forall|stake: u64|
                    {
                        &&& pos + (#[trigger] ser_t2(stake)).len() <= s@.len()
                        &&& s@.subrange(pos as int, pos + ser_t2(stake).len()) == ser_t2(stake)
                    } implies false by {
                    lemma_t2_pieces(s@, pos as int, stake);
                }
            }
            return None;
        },
    };
    let (stake, k2): (u64, usize) = match parse_u64_at(s, k1) {
        Some(x) => x,
        None => {
            proof {
                assert forall|stake: u64|
                    {
                        &&& pos + (#[trigger] ser_t2(stake)).len() <= s@.len()
                        &&& s@.subrange(pos as int, pos + ser_t2(stake).len()) == ser_t2(stake)
                    } implies false by {
                    lemma_t2_pieces(s@, pos as int, stake);
                }
            }
            return None;
        },
    };
    let k3 = match lit_at(s, k2, ";") {
        Some(p) => p,
        None => {
            proof {
                assert forall|stake: u64|
                    {
                        &&& pos + (#[trigger] ser_t2(stake)).len() <= s@.len()
                        &&& s@.subrange(pos as int, pos + ser_t2(stake).len()) == ser_t2(stake)
                    } implies false by {
                    lemma_t2_pieces(s@, pos as int, stake);
                }
            }
            return None;
        },
    };
    proof {
        lemma_glue(s@, k1 as int, k2 as int, k3 as int);
        lemma_glue(s@, pos as int, k1 as int, k3 as int);
        assert(s@.subrange(pos as int, k3 as int) =~= ser_t2(stake)) by {
            reveal(crate::codec::ser_t2);
        }
        assert forall|kv: u64|
            {
                &&& pos + (#[trigger] ser_t2(kv)).len() <= s@.len()
                &&& s@.subrange(pos as int, pos + ser_t2(kv).len()) == ser_t2(kv)
            } implies stake == kv && k3 == pos + ser_t2(kv).len() by {
            lemma_t2_pieces(s@, pos as int, kv);
        }
    }
    Some((stake, k3))
}

} // verus!

verus! {

/// Splits the hypothesis that a block encoding sits at `pos` into its four
/// quarters.
#[verifier::rlimit(100)]
#[verifier::spinoff_prover]
pub proof fn lemma_block_chunks(s: Seq<char>, pos: int, bv: BlockView)
    requires
        0 <= pos,
        pos + ser_block(bv).len() <= s.len(),
        s.subrange(pos, pos + ser_block(bv).len()) == ser_block(bv),
    ensures
        ({
            let c1 = ser_h1(bv.index, bv.timestamp);
            let c2 = ser_h2(bv.bpm, bv.hash);
            let c3 = ser_t1(bv.prev_hash, bv.validator.address);
            let c4 = ser_t2(bv.validator.stake);
            let a1 = pos + c1.len();
            let a2 = a1 + c2.len();
            let a3 = a2 + c3.len();
            let a4 = a3 + c4.len();
            &&& s.subrange(pos, a1) == c1
            &&& s.subrange(a1, a2) == c2
            &&& s.subrange(a2, a3) == c3
            &&& s.subrange(a3, a4) == c4
            &&& a4 == pos + ser_block(bv).len()
        }),
{
    let c1 = ser_h1(bv.index, bv.timestamp);
    let c2 = ser_h2(bv.bpm, bv.hash);
    let c3 = ser_t1(bv.prev_hash, bv.validator.address);
    let c4 = ser_t2(bv.validator.stake);
    let r3 = c3 + c4;
    let r2 = c2 + r3;
    assert(ser_block(bv) =~= c1 + r2);
    let a1 = pos + c1.len();
    let a2 = a1 + c2.len();
    lemma_split(s, pos, c1, r2);
    lemma_split(s, a1, c2, r3);
    lemma_split(s, a2, c3, c4);
}

/// Appends the length-prefixed encoding of `piece` to `out`.
fn push_str_field(out: &mut String, piece: &str)
    ensures
        final(out)@ == old(out)@ + ser_str(piece@),
{
    let l: usize = piece.unicode_len();
    let lstr = u64_to_string(l as u64);
    out.append(lstr.as_str());
    out.append(":");
    out.append(piece);
    proof {
        reveal_strlit(":");
        assert(final(out)@ =~= old(out)@ + ser_str(piece@));
    }
}

/// Prints a block in the stable text encoding.
#[verifier::rlimit(100)]
pub fn serialize_block(b: &Block) -> (r: String)
    ensures
        r@ == ser_block(b@),
{
    let mut out = String::new();
    out.append("index=");
    let istr = u64_to_string(b.index);
    out.append(istr.as_str());
    out.append(";timestamp=");
    push_str_field(&mut out, b.timestamp.as_str());
    proof {
        reveal(crate::codec::ser_h1);
        assert(out@ =~= ser_h1(b.index, b@.timestamp));
    }
    let ghost part1 = out@;
    out.append(";bpm=");
    push_str_field(&mut out, b.bpm.as_str());
    out.append(";hash=");
    push_str_field(&mut out, b.hash.as_str());
    proof {
        reveal(crate::codec::ser_h2);
        assert(out@ =~= part1 + ser_h2(b@.bpm, b@.hash));
    }
    let ghost part2 = out@;
    out.append(";prev_hash=");
    match &b.prev_hash {
        Some(p) => {
            out.append("+");
            push_str_field(&mut out, p.as_str());
        },
        None => {
            out.append("-");
        },
    }
    out.append(";address=");
    push_str_field(&mut out, b.validator.address.as_str());
    proof {
        reveal(crate::codec::ser_t1);
        assert(out@ =~= part2 + ser_t1(b@.prev_hash, b@.validator.address));
    }
    let ghost part3 = out@;
    out.append(";stake=");
    let sstr = u64_to_string(b.validator.stake);
    out.append(sstr.as_str());
    out.append(";");
    proof {
        reveal(crate::codec::ser_t2);
        assert(out@ =~= part3 + ser_t2(b@.validator.stake));
        assert(out@ =~= ser_block(b@));
    }
    out
}

/// Reads one block encoding starting at `pos`. On success the characters
/// read are exactly the encoding of the returned block; and whenever the
/// text at `pos` holds the encoding of some block, that block is returned.
#[verifier::rlimit(100)]
#[verifier::spinoff_prover]
pub fn parse_block_at(s: &str, pos: usize) -> (r: Option<(Block, usize)>)
    requires
        pos <= s@.len(),
    ensures
        match r {
            Some(bp) => pos < bp.1 <= s@.len() && s@.subrange(pos as int, bp.1 as int)
                == ser_block(bp.0@),
            None => true,
        },
        forall|bv: BlockView|
            {
                &&& pos + (#[trigger] ser_block(bv)).len() <= s@.len()
                &&& s@.subrange(pos as int, pos + ser_block(bv).len()) == ser_block(bv)
            } ==> match r {
            Some(bp) => bp.0@ == bv && bp.1 == pos + ser_block(bv).len(),
            None => false,
        },
{
    let (index, timestamp, k1): (u64, String, usize) = match parse_h1_at(s, pos) {
        Some(x) => x,
        None => {
            proof {
                assert forall|bv: BlockView|
                    {
                        &&& pos + (#[trigger] ser_block(bv)).len() <= s@.len()
                        &&& s@.subrange(pos as int, pos + ser_block(bv).len()) == ser_block(bv)
                    } implies false by {
                    lemma_block_chunks(s@, pos as int, bv);
                }
            }
            return None;
        },
    };
    let (bpm, hash, k2): (String, String, usize) = match parse_h2_at(s, k1) {
        Some(x) => x,
        None => {
            proof {
                assert forall|bv: BlockView|
                    {
                        &&& pos + (#[trigger] ser_block(bv)).len() <= s@.len()
                        &&& s@.subrange(pos as int, pos + ser_block(bv).len()) == ser_block(bv)
                    } implies false by {
                    lemma_block_chunks(s@, pos as int, bv);
                }
            }
            return None;
        },
    };
    let (prev_hash, address, k3): (Option<String>, String, usize) = match parse_t1_at(s, k2) {
        Some(x) => x,
        None => {
            proof {
                assert forall|bv: BlockView|
                    {
                        &&& pos + (#[trigger] ser_block(bv)).len() <= s@.len()
                        &&& s@.subrange(pos as int, pos + ser_block(bv).len()) == ser_block(bv)
                    } implies false by {
                    lemma_block_chunks(s@, pos as int, bv);
                }
            }
            return None;
        },
    };
    let (stake, k4): (u64, usize) = match parse_t2_at(s, k3) {
        Some(x) => x,
        None => {
            proof {
                assert forall|bv: BlockView|
                    {
                        &&& pos + (#[trigger] ser_block(bv)).len() <= s@.len()
                        &&& s@.subrange(pos as int, pos + ser_block(bv).len()) == ser_block(bv)
                    } implies false by {
                    lemma_block_chunks(s@, pos as int, bv);
                }
            }
            return None;
        },
    };
    let b = Block {
        index,
        timestamp,
        bpm,
        hash,
        prev_hash,
        validator: Validator { address, stake },
    };
    proof {
        lemma_glue(s@, k2 as int, k3 as int, k4 as int);
        lemma_glue(s@, k1 as int, k2 as int, k4 as int);
        lemma_glue(s@, pos as int, k1 as int, k4 as int);
        assert(s@.subrange(pos as int, k4 as int) =~= ser_block(b@));
        assert forall|bv: BlockView|
            {
                &&& pos + (#[trigger] ser_block(bv)).len() <= s@.len()
                &&& s@.subrange(pos as int, pos + ser_block(bv).len()) == ser_block(bv)
            } implies b@ == bv && k4 == pos + ser_block(bv).len() by {
            lemma_block_chunks(s@, pos as int, bv);
        }
    }
    Some((b, k4))
}

/// Parses a whole string as one block. Returns the block whose encoding the
/// string is, and nothing on any string that encodes no block.
pub fn deserialize_block(s: &str) -> (r: Option<Block>)
    ensures
        match r {
            Some(b) => s@ == ser_block(b@) && (forall|bv: BlockView|
                s@ == #[trigger] ser_block(bv) ==> bv == b@),
            None => forall|bv: BlockView| s@ != #[trigger] ser_block(bv),
        },
{
    proof {
        assert(s@.subrange(0, s@.len() as int) =~= s@);
    }
    let slen: usize = s.unicode_len();
    match parse_block_at(s, 0) {
        Some((b, p)) => {
            if p == slen {
                proof {
                    assert forall|bv: BlockView| s@ == #[trigger] ser_block(bv) implies bv == b@
                        by {
                        assert(s@.subrange(0, ser_block(bv).len() as int) == ser_block(bv));
                    }
                }
                Some(b)
            } else {
                proof {
                    assert forall|bv: BlockView| s@ != #[trigger] ser_block(bv) by {
                        if s@ == ser_block(bv) {
                            assert(s@.subrange(0, ser_block(bv).len() as int) == ser_block(bv));
                        }
                    }
                }
                None
            }
        },
        None => {
            proof {
                assert forall|bv: BlockView| s@ != #[trigger] ser_block(bv) by {
                    if s@ == ser_block(bv) {
                        assert(s@.subrange(0, ser_block(bv).len() as int) == ser_block(bv));
                    }
                }
            }
            None
        },
    }
}

} // verus!

verus! {

impl Block {
    /// Prints this block in the stable text encoding.
    pub fn serialize(&self) -> (r: String)
        ensures
            r@ == ser_block(self@),
    {
        serialize_block(self)
    }

    /// Parses a whole string as one block: the exact inverse of
    /// `serialize`.
    pub fn deserialize(s: &str) -> (r: Option<Block>)
        ensures
            match r {
                Some(b) => s@ == ser_block(b@) && (forall|bv: BlockView|
                    s@ == #[trigger] ser_block(bv) ==> bv == b@),
                None => forall|bv: BlockView| s@ != #[trigger] ser_block(bv),
            },
    {
        deserialize_block(s)
    }
}

/// Round-trip law: parsing a printed block always succeeds and yields the
/// block itself, field for field — for every block, including one with no
/// predecessor hash.
pub fn round_trip(b: &Block) -> (r: Option<Block>)
    ensures
        r matches Some(b2) && b2@ == b@,
{
    let s = serialize_block(b);
    let r = deserialize_block(s.as_str());
    proof {
        assert(s@ == ser_block(b@));
        if r is None {
            assert(s@ != ser_block(b@));
        }
    }
    r
}

} // verus!

verus! {

/// The encodings of a pool's blocks, one after another.
pub open spec fn ser_blocks(bs: Seq<BlockView>) -> Seq<char>
    decreases bs.len(),
{
    if bs.len() == 0 {
        Seq::<char>::empty()
    } else {
        ser_block(bs[0]) + ser_blocks(bs.drop_first())
    }
}

/// The encoding of a whole pool: its length in decimal, then each block's
/// encoding in pool order.
pub open spec fn ser_chain(bs: Seq<BlockView>) -> Seq<char> {
    "blocks="@ + dec(bs.len()) + ";"@ + ser_blocks(bs)
}

/// A block's encoding is never empty.
pub proof fn lemma_ser_block_len(bv: BlockView)
    ensures
        ser_block(bv).len() >= 1,
{
    reveal(crate::codec::ser_t2);
    crate::digits::lemma_dec_shape(bv.validator.stake as nat);
}

/// A pool's encoding is at least one character per block.
pub proof fn lemma_ser_blocks_len(bs: Seq<BlockView>)
    ensures
        ser_blocks(bs).len() >= bs.len(),
    decreases bs.len(),
{
    if bs.len() > 0 {
        lemma_ser_block_len(bs[0]);
        lemma_ser_blocks_len(bs.drop_first());
    }
}

/// Appending one block to a pool appends its encoding.
pub proof fn lemma_ser_blocks_snoc(bs: Seq<BlockView>, x: BlockView)
    ensures
        ser_blocks(bs.push(x)) == ser_blocks(bs) + ser_block(x),
    decreases bs.len(),
{
    if bs.len() == 0 {
        assert(bs.push(x)[0] == x);
        assert(bs.push(x).drop_first() =~= Seq::<BlockView>::empty());
        assert(ser_blocks(Seq::<BlockView>::empty()) == Seq::<char>::empty());
        assert(ser_blocks(bs.push(x)) == ser_block(x) + Seq::<char>::empty());
        assert(ser_blocks(bs.push(x)) =~= ser_blocks(bs) + ser_block(x));
    } else {
        assert(bs.push(x).drop_first() =~= bs.drop_first().push(x));
        lemma_ser_blocks_snoc(bs.drop_first(), x);
        assert(bs.push(x)[0] == bs[0]);
        assert(ser_blocks(bs.push(x)) =~= ser_blocks(bs) + ser_block(x));
    }
}

/// The encoding of block `i` sits between the encodings of the blocks
/// before and after it.
pub proof fn lemma_ser_blocks_decompose(bs: Seq<BlockView>, i: int)
    requires
        0 <= i < bs.len(),
    ensures
        ser_blocks(bs) == ser_blocks(bs.take(i)) + (ser_block(bs[i]) + ser_blocks(
            bs.skip(i + 1),
        )),
    decreases i,
{
    if i == 0 {
        assert(bs.take(0) =~= Seq::<BlockView>::empty());
        assert(bs.skip(1) =~= bs.drop_first());
        assert(ser_blocks(bs) =~= ser_blocks(bs.take(0)) + (ser_block(bs[0]) + ser_blocks(
            bs.skip(1),
        )));
    } else {
        lemma_ser_blocks_decompose(bs, i - 1);
        assert(bs.take(i) =~= bs.take(i - 1).push(bs[i - 1]));
        lemma_ser_blocks_snoc(bs.take(i - 1), bs[i - 1]);
        assert(bs.skip(i)[0] == bs[i]);
        assert(bs.skip(i).drop_first() =~= bs.skip(i + 1));
        assert(ser_blocks(bs.skip(i)) == ser_block(bs[i]) + ser_blocks(bs.skip(i + 1)));
        assert(ser_blocks(bs) =~= ser_blocks(bs.take(i)) + (ser_block(bs[i]) + ser_blocks(
            bs.skip(i + 1),
        )));
    }
}

/// Pins the pieces of a whole-pool encoding: the count, its separator, and
/// the blocks' encodings.
#[verifier::rlimit(100)]
#[verifier::spinoff_prover]
pub proof fn lemma_chain_pieces(s: Seq<char>, bs: Seq<BlockView>)
    requires
        s == ser_chain(bs),
    ensures
        ({
            let a1 = "blocks="@.len() as int;
            let a2 = a1 + dec(bs.len()).len();
            let a3 = a2 + ";"@.len();
            &&& s.subrange(0, a1) == "blocks="@
            &&& s.subrange(a1, a2) == dec(bs.len())
            &&& !is_digit(s[a2])
            &&& s.subrange(a2, a3) == ";"@
            &&& s.subrange(a3, s.len() as int) == ser_blocks(bs)
            &&& a3 + ser_blocks(bs).len() == s.len()
            &&& bs.len() <= u64::MAX ==> dec((bs.len() as u64) as nat) == dec(bs.len())
        }),
{
    let p1 = "blocks="@;
    let p2 = dec(bs.len());
    let p3 = ";"@;
    let p4 = ser_blocks(bs);
    let r3 = p3 + p4;
    let r2 = p2 + r3;
    assert(s.subrange(0, s.len() as int) =~= s);
    assert(ser_chain(bs) =~= p1 + r2);
    let a1 = p1.len() as int;
    let a2 = a1 + p2.len();
    let a3 = a2 + p3.len();
    lemma_split(s, 0, p1, r2);
    lemma_split(s, a1, p2, r3);
    lemma_split(s, a2, p3, p4);
    reveal_strlit(";");
    assert(s.subrange(a2, a3)[0] == s[a2]);
    assert(s[a2] == ';');
}

} // verus!

verus! {

pub open spec fn chain_views(blocks: Seq<Block>) -> Seq<BlockView> {
    blocks.map_values(|b: Block| b@)
}

/// Prints a whole pool in the stable text encoding.
#[verifier::rlimit(100)]
pub fn serialize_chain(c: &BlockChain) -> (r: String)
    ensures
        r@ == ser_chain(c@),
{
    let mut out = String::new();
    out.append("blocks=");
    let n: usize = c.blocks.len();
    let nstr = u64_to_string(n as u64);
    out.append(nstr.as_str());
    out.append(";");
    let ghost hdr = out@;
    proof {
        assert(c@.take(0) =~= Seq::<BlockView>::empty());
        assert(out@ =~= hdr + ser_blocks(c@.take(0)));
    }
    let mut i: usize = 0;
    while i < n
        invariant
            i <= n,
            n == c.blocks@.len(),
            n == c@.len(),
            hdr == "blocks="@ + dec(c@.len()) + ";"@,
            out@ == hdr + ser_blocks(c@.take(i as int)),
        decreases n - i,
    {
        let piece = serialize_block(&c.blocks[i]);
        out.append(piece.as_str());
        proof {
            assert(c@.take(i + 1) =~= c@.take(i as int).push(c@[i as int]));
            lemma_ser_blocks_snoc(c@.take(i as int), c@[i as int]);
            assert(out@ =~= hdr + ser_blocks(c@.take(i + 1)));
        }
        i = i + 1;
    }
    proof {
        assert(c@.take(n as int) =~= c@);
        assert(out@ =~= ser_chain(c@));
    }
    out
}

/// Parses a whole string as one pool. Returns the pool whose encoding the
/// string is, and nothing on any string that encodes no pool.
#[verifier::rlimit(100)]
#[verifier::spinoff_prover]
pub fn deserialize_chain(s: &str) -> (r: Option<BlockChain>)
    ensures
        match r {
            Some(c) => s@ == ser_chain(c@) && (forall|bs: Seq<BlockView>|
                s@ == #[trigger] ser_chain(bs) ==> bs == c@),
            None => forall|bs: Seq<BlockView>| s@ != #[trigger] ser_chain(bs),
        },
{
    let slen: usize = s.unicode_len();
    let k1 = match lit_at(s, 0, "blocks=") {
        Some(p) => p,
        None => {
            proof {
                assert forall|bs: Seq<BlockView>| s@ != #[trigger] ser_chain(bs) by {
                    if s@ == ser_chain(bs) {
                        lemma_chain_pieces(s@, bs);
                        assert("blocks="@.len() <= s@.len());
                        assert(s@.subrange(0, "blocks="@.len() as int) == "blocks="@);
                        assert(false);
                    }
                }
            }
            return None;
        },
    };
    let (n64, k2): (u64, usize) = match parse_u64_at(s, k1) {
        Some(x) => x,
        None => {
            proof {
                assert forall|bs: Seq<BlockView>| s@ != #[trigger] ser_chain(bs) by {
                    if s@ == ser_chain(bs) {
                        lemma_chain_pieces(s@, bs);
                        lemma_ser_blocks_len(bs);
                        assert(bs.len() <= u64::MAX);
                        assert(dec((bs.len() as u64) as nat) == dec(bs.len()));
                        assert(false);
                    }
                }
            }
            return None;
        },
    };
    let k3 = match lit_at(s, k2, ";") {
        Some(p) => p,
        None => {
            proof {
                assert forall|bs: Seq<BlockView>| s@ != #[trigger] ser_chain(bs) by {
                    if s@ == ser_chain(bs) {
                        lemma_chain_pieces(s@, bs);
                        lemma_ser_blocks_len(bs);
                        assert(dec((bs.len() as u64) as nat) == dec(bs.len()));
                        assert(false);
                    }
                }
            }
            return None;
        },
    };
    let mut blocks: Vec<Block> = Vec::new();
    let mut p: usize = k3;
    let mut i: u64 = 0;
    proof {
        reveal_strlit(";");
        assert(k2 - k1 == dec(n64 as nat).len());
        assert(k3 == k2 + 1);
        assert(chain_views(blocks@) =~= Seq::<BlockView>::empty());
        assert(ser_blocks(chain_views(blocks@)) == Seq::<char>::empty());
        assert(s@.subrange(k3 as int, k3 as int) =~= Seq::<char>::empty());
        assert forall|bs: Seq<BlockView>|
            s@ == #[trigger] ser_chain(bs) implies n64 == bs.len() && chain_views(blocks@)
            == bs.take(0) && p == k3 + ser_blocks(bs.take(0)).len() by {
            lemma_chain_pieces(s@, bs);
            lemma_ser_blocks_len(bs);
            assert(dec((bs.len() as u64) as nat) == dec(bs.len()));
            assert(bs.take(0) =~= Seq::<BlockView>::empty());
            assert(ser_blocks(bs.take(0)) == Seq::<char>::empty());
            assert(chain_views(blocks@) =~= bs.take(0));
        }
    }
    while i < n64
        invariant
            i <= n64,
            k3 <= p <= s@.len(),
            blocks@.len() == i,
            s@.len() == slen,
            k3 == k1 + dec(n64 as nat).len() + 1,
            s@.subrange(0, k1 as int) == "blocks="@,
            s@.subrange(k1 as int, (k1 + dec(n64 as nat).len()) as int) == dec(n64 as nat),
            s@.subrange((k3 - 1) as int, k3 as int) == ";"@,
            s@.subrange(k3 as int, p as int) == ser_blocks(chain_views(blocks@)),
            forall|bs: Seq<BlockView>|
                s@ == #[trigger] ser_chain(bs) ==> n64 == bs.len() && chain_views(blocks@)
                    == bs.take(i as int) && p == k3 + ser_blocks(bs.take(i as int)).len(),
        decreases n64 - i,
    {
        let (b, p2): (Block, usize) = match parse_block_at(s, p) {
            Some(x) => x,
            None => {
                proof {
                    assert forall|bs: Seq<BlockView>| s@ != #[trigger] ser_chain(bs) by {
                        if s@ == ser_chain(bs) {
                            lemma_chain_pieces(s@, bs);
                            lemma_ser_blocks_len(bs);
                            assert(dec((bs.len() as u64) as nat) == dec(bs.len()));
                            lemma_ser_blocks_decompose(bs, i as int);
                            lemma_split(
                                s@,
                                k3 as int,
                                ser_blocks(bs.take(i as int)),
                                ser_block(bs[i as int]) + ser_blocks(bs.skip(i + 1)),
                            );
                            lemma_split(
                                s@,
                                p as int,
                                ser_block(bs[i as int]),
                                ser_blocks(bs.skip(i + 1)),
                            );
                        }
                    }
                }
                return None;
            },
        };
        proof {
            assert forall|bs: Seq<BlockView>|
                s@ == #[trigger] ser_chain(bs) implies n64 == bs.len() && chain_views(
                blocks@.push(b),
            ) == bs.take(i + 1) && p2 == k3 + ser_blocks(bs.take(i + 1)).len() by {
                lemma_chain_pieces(s@, bs);
                lemma_ser_blocks_len(bs);
                assert(dec((bs.len() as u64) as nat) == dec(bs.len()));
                lemma_ser_blocks_decompose(bs, i as int);
                lemma_split(
                    s@,
                    k3 as int,
                    ser_blocks(bs.take(i as int)),
                    ser_block(bs[i as int]) + ser_blocks(bs.skip(i + 1)),
                );
                lemma_split(
                    s@,
                    p as int,
                    ser_block(bs[i as int]),
                    ser_blocks(bs.skip(i + 1)),
                );
                assert(b@ == bs[i as int]);
                assert(chain_views(blocks@.push(b)) =~= bs.take(i + 1));
                assert(bs.take(i + 1) =~= bs.take(i as int).push(bs[i as int]));
                lemma_ser_blocks_snoc(bs.take(i as int), bs[i as int]);
            }
            lemma_glue(s@, k3 as int, p as int, p2 as int);
            lemma_ser_blocks_snoc(chain_views(blocks@), b@);
            assert(chain_views(blocks@.push(b)) =~= chain_views(blocks@).push(b@));
        }
        blocks.push(b);
        p = p2;
        i = i + 1;
    }
    if p != slen {
        proof {
            assert forall|bs: Seq<BlockView>| s@ != #[trigger] ser_chain(bs) by {
                if s@ == ser_chain(bs) {
                    lemma_chain_pieces(s@, bs);
                    lemma_ser_blocks_len(bs);
                    assert(dec((bs.len() as u64) as nat) == dec(bs.len()));
                    assert(bs.take(n64 as int) =~= bs);
                    assert(false);
                }
            }
        }
        return None;
    }
    let c = BlockChain { blocks };
    proof {
        assert(c@ == chain_views(c.blocks@));
        assert forall|bs: Seq<BlockView>|
            s@ == #[trigger] ser_chain(bs) implies bs == c@ by {
            lemma_chain_pieces(s@, bs);
            lemma_ser_blocks_len(bs);
            assert(dec((bs.len() as u64) as nat) == dec(bs.len()));
            assert(bs.take(n64 as int) =~= bs);
        }
        // the pieces read glue back to exactly ser_chain(c@)
        assert(dec(c@.len()) == dec(n64 as nat)) by {
            assert(c@.len() == n64);
        }
        lemma_glue(s@, k1 as int, (k3 - 1) as int, k3 as int);
        lemma_glue(s@, 0, k1 as int, k3 as int);
        lemma_glue(s@, 0, k3 as int, slen as int);
        assert(s@.subrange(0, slen as int) =~= s@);
        assert(s@ =~= ser_chain(c@));
    }
    Some(c)
}

impl BlockChain {
    /// Prints this pool in the stable text encoding.
    pub fn serialize(&self) -> (r: String)
        ensures
            r@ == ser_chain(self@),
    {
        serialize_chain(self)
    }

    /// Parses a whole string as one pool: the exact inverse of `serialize`.
    pub fn deserialize(s: &str) -> (r: Option<BlockChain>)
        ensures
            match r {
                Some(c) => s@ == ser_chain(c@) && (forall|bs: Seq<BlockView>|
                    s@ == #[trigger] ser_chain(bs) ==> bs == c@),
                None => forall|bs: Seq<BlockView>| s@ != #[trigger] ser_chain(bs),
            },
    {
        deserialize_chain(s)
    }
}

/// Round-trip law for pools: parsing a printed pool always succeeds and
/// yields the pool itself, block for block.
pub fn round_trip_chain(c: &BlockChain) -> (r: Option<BlockChain>)
    ensures
        r matches Some(c2) && c2@ == c@,
{
    let s = serialize_chain(c);
    let r = deserialize_chain(s.as_str());
    proof {
        assert(s@ == ser_chain(c@));
        if r is None {
            assert(s@ != ser_chain(c@));
        }
    }
    r
}

} // verus!
