//! The suspendable byte-stream state machine.
//!
//! The tokenizer consumes arbitrarily chunked bytes and splits them into
//! `key;value\n` records, feeding each complete record to the aggregator as
//! it closes. It can suspend at any byte boundary: a partial key or value
//! stays in its accumulators and parsing resumes when more bytes arrive, so
//! the whole stream never has to be in memory at once.
//!
//! A record whose value token is not well-formed (`-?\d{1,2}\.\d`) is
//! skipped whole rather than folded in as garbage: malformed records are
//! rejected, never silently miscounted.

use vstd::prelude::*;
use crate::aggregator::{
    Aggregator, fold_records, lemma_fold_lookup_merge, lemma_fold_sorted, opt_merge, spec_apply,
    spec_lookup,
};
use crate::stats::Bucket;
use crate::temp::{is_temp_token, is_valid_temp, parse_temp, temp_value};

verus! {

pub const SEMICOLON: u8 = 59;

pub const NEWLINE: u8 = 10;

/// The two parsing modes: collecting key bytes until `;`, then collecting
/// value bytes until the newline closes the record.
#[derive(Clone, Copy)]
pub enum Mode {
    ReadingKey,
    ReadingValue,
}

/// Mathematical model of the tokenizer: its mode and the two accumulators.
pub ghost struct TokState {
    pub mode: Mode,
    pub key: Seq<u8>,
    pub val: Seq<u8>,
}

/// The tokenizer before any byte has arrived.
pub open spec fn tok_init() -> TokState {
    TokState { mode: Mode::ReadingKey, key: Seq::empty(), val: Seq::empty() }
}

/// One byte of progress for the combined machine (tokenizer plus table).
pub open spec fn spec_step(t: TokState, a: Seq<(Seq<u8>, Bucket)>, b: u8) -> (
    TokState,
    Seq<(Seq<u8>, Bucket)>,
) {
    match t.mode {
        Mode::ReadingKey => {
            if b == SEMICOLON {
                (TokState { mode: Mode::ReadingValue, key: t.key, val: t.val }, a)
            } else {
                (TokState { mode: Mode::ReadingKey, key: t.key.push(b), val: t.val }, a)
            }
        },
        Mode::ReadingValue => {
            if b == NEWLINE {
                let a2 = if is_temp_token(t.val) {
                    spec_apply(a, t.key, temp_value(t.val))
                } else {
                    a
                };
                (tok_init(), a2)
            } else {
                (TokState { mode: Mode::ReadingValue, key: t.key, val: t.val.push(b) }, a)
            }
        },
    }
}

/// The combined machine after consuming `bytes`, byte by byte.
pub open spec fn spec_run(t: TokState, a: Seq<(Seq<u8>, Bucket)>, bytes: Seq<u8>) -> (
    TokState,
    Seq<(Seq<u8>, Bucket)>,
)
    decreases bytes.len(),
{
    if bytes.len() == 0 {
        (t, a)
    } else {
        let s = spec_step(t, a, bytes[0]);
        spec_run(s.0, s.1, bytes.drop_first())
    }
}

/// Law: streaming equivalence. Feeding a byte stream in one piece and
/// feeding it split at any boundary leave the machine in the same state;
/// by induction, so does any chunking whatever.
pub proof fn lemma_run_concat(
    t: TokState,
    a: Seq<(Seq<u8>, Bucket)>,
    b1: Seq<u8>,
    b2: Seq<u8>,
)
    ensures
        spec_run(t, a, b1 + b2) == spec_run(
            spec_run(t, a, b1).0,
            spec_run(t, a, b1).1,
            b2,
        ),
    decreases b1.len(),
{
    if b1.len() == 0 {
        assert(b1 + b2 =~= b2);
    } else {
        let s = spec_step(t, a, b1[0]);
        assert((b1 + b2)[0] == b1[0]);
        assert((b1 + b2).drop_first() =~= b1.drop_first() + b2);
        lemma_run_concat(s.0, s.1, b1.drop_first(), b2);
    }
}

proof fn lemma_run_snoc(t: TokState, a: Seq<(Seq<u8>, Bucket)>, bytes: Seq<u8>, b: u8)
    ensures
        spec_run(t, a, bytes.push(b)) == spec_step(
            spec_run(t, a, bytes).0,
            spec_run(t, a, bytes).1,
            b,
        ),
{
    lemma_run_concat(t, a, bytes, seq![b]);
    assert(bytes.push(b) =~= bytes + seq![b]);
    let m = spec_run(t, a, bytes);
    let s = spec_step(m.0, m.1, b);
    assert(seq![b][0] == b);
    assert(seq![b].drop_first() =~= Seq::<u8>::empty());
    assert(spec_run(m.0, m.1, seq![b]) == spec_run(s.0, s.1, seq![b].drop_first()));
    assert(spec_run(s.0, s.1, Seq::<u8>::empty()) == s);
}

/// The records the machine completes and accepts while consuming `bytes`
/// from tokenizer state `t`, in order.
pub open spec fn run_records(t: TokState, bytes: Seq<u8>) -> Seq<(Seq<u8>, int)>
    decreases bytes.len(),
{
    if bytes.len() == 0 {
        Seq::empty()
    } else {
        let b = bytes[0];
        let t2 = spec_step(t, Seq::<(Seq<u8>, Bucket)>::empty(), b).0;
        if t.mode is ReadingValue && b == NEWLINE && is_temp_token(t.val) {
            seq![(t.key, temp_value(t.val))] + run_records(t2, bytes.drop_first())
        } else {
            run_records(t2, bytes.drop_first())
        }
    }
}

/// The machine's table is exactly the fold of the records it emits: the
/// tokenizer adds nothing and loses nothing but incomplete or rejected
/// records.
pub proof fn lemma_run_is_fold(t: TokState, a: Seq<(Seq<u8>, Bucket)>, bytes: Seq<u8>)
    ensures
        spec_run(t, a, bytes).1 == fold_records(a, run_records(t, bytes)),
    decreases bytes.len(),
{
    if bytes.len() > 0 {
        let b = bytes[0];
        let rest = bytes.drop_first();
        let s = spec_step(t, a, b);
        assert(s.0 == spec_step(t, Seq::<(Seq<u8>, Bucket)>::empty(), b).0);
        lemma_run_is_fold(s.0, s.1, rest);
        if t.mode is ReadingValue && b == NEWLINE && is_temp_token(t.val) {
            let r = (t.key, temp_value(t.val));
            assert(s.1 == spec_apply(a, r.0, r.1));
            let rr = run_records(s.0, rest);
            assert(run_records(t, bytes) == seq![r] + rr);
            assert((seq![r] + rr)[0] == r);
            assert((seq![r] + rr).drop_first() =~= rr);
        } else {
            assert(s.1 == a);
        }
    }
}

/// Law: partition merge over the byte stream. When the first partition ends
/// at a record boundary (the machine is back in its initial state after it),
/// one pass over the whole stream and two independent passes over the
/// partitions merged key by key give every key the same bucket. A partition
/// cut inside a record (after `A;1` of `A;1.0`, say) leaves no such
/// boundary, and the two sides then parse that record differently.
pub proof fn lemma_partition_merge_bytes(b1: Seq<u8>, b2: Seq<u8>, k: Seq<u8>)
    requires
        spec_run(tok_init(), Seq::<(Seq<u8>, Bucket)>::empty(), b1).0 == tok_init(),
    ensures
        spec_lookup(spec_run(tok_init(), Seq::<(Seq<u8>, Bucket)>::empty(), b1 + b2).1, k)
            == opt_merge(
            spec_lookup(spec_run(tok_init(), Seq::<(Seq<u8>, Bucket)>::empty(), b1).1, k),
            spec_lookup(spec_run(tok_init(), Seq::<(Seq<u8>, Bucket)>::empty(), b2).1, k),
        ),
{
    let e = Seq::<(Seq<u8>, Bucket)>::empty();
    lemma_run_concat(tok_init(), e, b1, b2);
    let a1 = spec_run(tok_init(), e, b1).1;
    lemma_run_is_fold(tok_init(), a1, b2);
    lemma_run_is_fold(tok_init(), e, b2);
    lemma_run_is_fold(tok_init(), e, b1);
    lemma_fold_sorted(e, run_records(tok_init(), b1));
    lemma_fold_lookup_merge(a1, run_records(tok_init(), b2), k);
}

/// The suspendable parser itself.
pub struct Tokenizer {
    mode: Mode,
    key_acc: Vec<u8>,
    val_acc: Vec<u8>,
}

impl View for Tokenizer {
    type V = TokState;

    closed spec fn view(&self) -> TokState {
        TokState { mode: self.mode, key: self.key_acc@, val: self.val_acc@ }
    }
}

impl Tokenizer {
    /// A fresh tokenizer, ready for the first chunk.
    pub fn new() -> (t: Tokenizer)
        ensures
            t@ == tok_init(),
    {
        let t = Tokenizer { mode: Mode::ReadingKey, key_acc: Vec::new(), val_acc: Vec::new() };
        proof {
            assert(t@.key =~= tok_init().key);
            assert(t@.val =~= tok_init().val);
        }
        t
    }

    /// Consume one chunk: drain every complete record in `bytes` into `agg`
    /// and keep the trailing partial record in the accumulators for the next
    /// call. The combined end state is exactly the machine run over the
    /// chunk.
    pub fn feed(&mut self, bytes: &[u8], agg: &mut Aggregator)
        requires
            old(agg).wf(),
            old(agg).records_ghost() + bytes@.len() <= u64::MAX,
        ensures
            final(agg).wf(),
            (final(self)@, final(agg)@) == spec_run(old(self)@, old(agg)@, bytes@),
            final(agg).records_ghost() <= old(agg).records_ghost() + bytes@.len(),
    {
        let n = bytes.len();
        let mut i: usize = 0;
        while i < n
            invariant
                i <= n,
                n == bytes@.len(),
                agg.wf(),
                agg.records_ghost() <= old(agg).records_ghost() + i,
                old(agg).records_ghost() + n <= u64::MAX,
                (self@, agg@) == spec_run(old(self)@, old(agg)@, bytes@.take(i as int)),
            decreases n - i,
        {
            proof {
                lemma_run_snoc(old(self)@, old(agg)@, bytes@.take(i as int), bytes@[i as int]);
                assert(bytes@.take(i as int).push(bytes@[i as int]) =~= bytes@.take(i as int + 1));
            }
            let b = bytes[i];
            match self.mode {
                Mode::ReadingKey => {
                    if b == SEMICOLON {
                        self.mode = Mode::ReadingValue;
                    } else {
                        self.key_acc.push(b);
                    }
                },
                Mode::ReadingValue => {
                    if b == NEWLINE {
                        if is_valid_temp(self.val_acc.as_slice()) {
                            let v = parse_temp(self.val_acc.as_slice());
                            agg.apply(self.key_acc.as_slice(), v);
                        }
                        self.key_acc.clear();
                        self.val_acc.clear();
                        self.mode = Mode::ReadingKey;
                        proof {
                            assert(self@.key =~= tok_init().key);
                            assert(self@.val =~= tok_init().val);
                        }
                    } else {
                        self.val_acc.push(b);
                    }
                },
            }
            i = i + 1;
        }
        proof {
            assert(bytes@.take(n as int) =~= bytes@);
        }
    }
}

} // verus!
