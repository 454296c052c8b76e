//! What a log directory means: the map obtained by replaying every record
//! of every log, in ascending version order.
//!
//! `replay_from` gives the meaning of one log from a starting offset:
//! whitespace between records is permitted on read, each record applies to
//! the map (`Set` inserts, `Remove` deletes), and a trailing sequence that
//! is not a whole record makes the log malformed (`None`). `replay_logs`
//! folds that over a sequence of versions. The two lemmas here are the
//! engine's workhorses: appending one whole record to a log applies that
//! record to the log's meaning, and adding one log at the end of the order
//! replays it after the others.

use vstd::prelude::*;

use crate::codec::{decode_rec, Record};
use crate::codec::{lemma_decode_rec_len, lemma_decode_rec_prefix};

verus! {

/// The whitespace bytes JSON permits between values.
pub open spec fn is_ws(b: u8) -> bool {
    b == 32 || b == 9 || b == 10 || b == 13
}

/// One record applied to a map: `Set` binds the key, `Remove` unbinds it.
pub open spec fn apply_rec(m: Map<Seq<u8>, Seq<u8>>, r: Record) -> Map<Seq<u8>, Seq<u8>> {
    match r {
        Record::Put { key, value } => m.insert(key, value),
        Record::Remove { key } => m.remove(key),
    }
}

/// Replays the records of log `s` from offset `pos` onto `m`. `None` when
/// the bytes from `pos` on are not a whitespace-separated sequence of whole
/// records.
pub open spec fn replay_from(s: Seq<u8>, pos: int, m: Map<Seq<u8>, Seq<u8>>) -> Option<
    Map<Seq<u8>, Seq<u8>>,
>
    decreases s.len() - pos,
    when 0 <= pos <= s.len()
{
    if pos == s.len() {
        Some(m)
    } else if is_ws(s[pos]) {
        replay_from(s, pos + 1, m)
    } else {
        match decode_rec(s.skip(pos)) {
            Some((r, n)) => {
                if 1 <= n <= s.len() - pos {
                    replay_from(s, pos + n, apply_rec(m, r))
                } else {
                    None
                }
            },
            None => None,
        }
    }
}

/// The meaning of one whole log applied to `m`.
pub open spec fn replay_log(s: Seq<u8>, m: Map<Seq<u8>, Seq<u8>>) -> Option<Map<Seq<u8>, Seq<u8>>> {
    replay_from(s, 0, m)
}

/// The meaning of the logs named by `vs`, replayed in that order onto `m`.
pub open spec fn replay_logs(
    files: Map<u64, Seq<u8>>,
    vs: Seq<u64>,
    m: Map<Seq<u8>, Seq<u8>>,
) -> Option<Map<Seq<u8>, Seq<u8>>>
    decreases vs.len(),
{
    if vs.len() == 0 {
        Some(m)
    } else {
        match replay_log(files[vs[0]], m) {
            Some(m2) => replay_logs(files, vs.drop_first(), m2),
            None => None,
        }
    }
}

/// Appending one whole record to a log applies the record to the log's
/// meaning: the bytes already replayed decode as before, and the new record
/// stands alone at the end.
pub proof fn lemma_replay_append(
    s: Seq<u8>,
    enc: Seq<u8>,
    pos: int,
    m: Map<Seq<u8>, Seq<u8>>,
    mf: Map<Seq<u8>, Seq<u8>>,
    r: Record,
)
    requires
        0 <= pos <= s.len(),
        replay_from(s, pos, m) == Some(mf),
        decode_rec(enc) == Some((r, enc.len() as nat)),
    ensures
        replay_from(s + enc, pos, m) == Some(apply_rec(mf, r)),
    decreases s.len() - pos,
{
    let s2 = s + enc;
    lemma_decode_rec_len(enc, r, enc.len() as nat);
    if pos == s.len() {
        assert(s2.skip(pos) =~= enc);
        assert(s2[pos] == enc[0]);
        assert(!is_ws(s2[pos]));
        assert(replay_from(s2, pos + enc.len(), apply_rec(m, r)) == Some(apply_rec(m, r)));
    } else if is_ws(s[pos]) {
        assert(s2[pos] == s[pos]);
        lemma_replay_append(s, enc, pos + 1, m, mf, r);
    } else {
        assert(s2[pos] == s[pos]);
        match decode_rec(s.skip(pos)) {
            Some((r1, n1)) => {
                lemma_decode_rec_len(s.skip(pos), r1, n1);
                assert(s2.skip(pos).take(n1 as int) =~= s.skip(pos).take(n1 as int));
                lemma_decode_rec_prefix(s.skip(pos), s2.skip(pos), r1, n1);
                lemma_replay_append(s, enc, pos + n1, apply_rec(m, r1), mf, r);
            },
            None => {
                assert(false);
            },
        }
    }
}

/// Whitespace between records does not change a log's meaning.
pub proof fn lemma_replay_ws(s: Seq<u8>, p1: int, p2: int, m: Map<Seq<u8>, Seq<u8>>)
    requires
        0 <= p1 <= p2 <= s.len(),
        forall|j: int| p1 <= j < p2 ==> is_ws(#[trigger] s[j]),
    ensures
        replay_from(s, p1, m) == replay_from(s, p2, m),
    decreases p2 - p1,
{
    if p1 < p2 {
        assert(is_ws(s[p1]));
        lemma_replay_ws(s, p1 + 1, p2, m);
    }
}

/// Adding one log at the end of the version order replays it after all the
/// others, as long as its version is new.
pub proof fn lemma_replay_logs_snoc(
    files: Map<u64, Seq<u8>>,
    vs: Seq<u64>,
    v: u64,
    d: Seq<u8>,
    m: Map<Seq<u8>, Seq<u8>>,
)
    requires
        forall|i: int| 0 <= i < vs.len() ==> vs[i] != v,
    ensures
        replay_logs(files.insert(v, d), vs.push(v), m) == (match replay_logs(files, vs, m) {
            Some(m2) => replay_log(d, m2),
            None => None,
        }),
    decreases vs.len(),
{
    let files2 = files.insert(v, d);
    if vs.len() == 0 {
        assert(vs.push(v)[0] == v);
        assert(vs.push(v).drop_first() =~= Seq::<u64>::empty());
        assert(files2[v] == d);
        match replay_log(d, m) {
            Some(m2) => {
                assert(replay_logs(files2, Seq::<u64>::empty(), m2) == Some(m2));
                assert(replay_logs(files2, vs.push(v), m) == Some(m2));
            },
            None => {
                assert(replay_logs(files2, vs.push(v), m) is None);
            },
        }
    } else {
        assert(vs.push(v)[0] == vs[0]);
        assert(vs[0] != v);
        assert(files2[vs[0]] == files[vs[0]]);
        assert(vs.push(v).drop_first() =~= vs.drop_first().push(v));
        match replay_log(files[vs[0]], m) {
            Some(m2) => {
                lemma_replay_logs_snoc(files, vs.drop_first(), v, d, m2);
            },
            None => {},
        }
    }
}

} // verus!
