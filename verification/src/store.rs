//! The storage engine.
//!
//! A `KvStore` owns the in-memory index, the active version, the version
//! list, the stale-byte counter, and the writer's append offset. The log
//! directory itself is modelled as a ghost map from version number to file
//! contents: every operation states exactly how that map changes, and an
//! embedder performs the matching file operations with the bytes the engine
//! hands out. The engine's invariant ties everything together: replaying
//! the modelled files in ascending version order yields exactly the index's
//! observable map, and every locator resolves to a whole `Set` record for
//! its key.
//!
//! Mutations are two-phase, so a failed append leaves the index untouched:
//! `prepare_set` / `prepare_remove` produce the record bytes without
//! changing anything, and `commit_set` / `commit_remove` record a
//! successful append.

use vstd::prelude::*;

use vstd::utf8::{decode_utf8, encode_utf8, valid_utf8};

use crate::codec::{decode_rec, decode_record, encode_record, encoding, Command, Record};
use crate::codec::{lemma_decode_encoding, lemma_decode_rec_len, lemma_decode_rec_prefix};
use crate::errors::KvsError;
use crate::index::{bytes_eq, CommandPosition, KvIndex};
use crate::kvio::{KvsReader, KvsWriter};
use crate::replay::{
    apply_rec, is_ws, lemma_replay_append, lemma_replay_logs_snoc, lemma_replay_ws, replay_from,
    replay_log, replay_logs,
};
use vstd::string::{StrSliceExecFns, StringExecFns};

verus! {

/// Compaction is triggered when the stale-byte counter passes this bound:
/// one mebibyte.
pub const MAX_STALE_BYTES: u64 = 1048576;

/// One existing log file, as an embedder hands it to `open`: its version
/// number and its full contents.
pub struct LogFile {
    /// The version number parsed from the file's name.
    pub version: u64,
    /// The file's bytes.
    pub data: Vec<u8>,
}

/// Options a store can be opened with. The engine currently recognises
/// none; the type keeps the opening surface stable.
pub struct KvOpts;

/// What compaction asks of the embedder: write `compact_data` as the log
/// named by `compact_version`, create an empty log named by `new_version`,
/// and delete the logs named by `stale_versions`.
pub struct CompactionOutcome {
    /// The version of the log that now holds every live record.
    pub compact_version: u64,
    /// The new active version; its log starts empty.
    pub new_version: u64,
    /// The full contents of the compacted log.
    pub compact_data: Vec<u8>,
    /// The versions whose files are superseded and can be deleted.
    pub stale_versions: Vec<u64>,
}

/// The version sequence of a list of log files.
pub open spec fn logs_versions(logs: Seq<LogFile>) -> Seq<u64> {
    logs.map_values(|l: LogFile| l.version)
}

/// The file-contents map of a list of log files.
pub open spec fn logs_files(logs: Seq<LogFile>) -> Map<u64, Seq<u8>>
    decreases logs.len(),
{
    if logs.len() == 0 {
        Map::empty()
    } else {
        logs_files(logs.drop_last()).insert(logs.last().version, logs.last().data@)
    }
}

/// Whether `loc` resolves, in the files `files`, to a whole `Set` record
/// binding `k` to `v` in exactly the bytes `[loc.pos, loc.pos + loc.len)`.
pub open spec fn valid_loc(
    files: Map<u64, Seq<u8>>,
    loc: CommandPosition,
    k: Seq<u8>,
    v: Seq<u8>,
) -> bool {
    &&& files.contains_key(loc.ver)
    &&& loc.pos + loc.len <= files[loc.ver].len()
    &&& 1 <= loc.len
    &&& decode_rec(files[loc.ver].skip(loc.pos as int)) == Some(
        (Record::Put { key: k, value: v }, loc.len as nat),
    )
}

/// The total length of the locators in a plan, over its first `i` entries.
pub open spec fn locs_len_sum(locs: Seq<CommandPosition>, i: int) -> int
    decreases i,
{
    if i <= 0 {
        0
    } else {
        locs_len_sum(locs, i - 1) + locs[i - 1].len
    }
}

/// `a + b`, stopping at the largest 64-bit value. The stale-byte counter
/// is a heuristic upper bound on reclaimable space, and saturation keeps
/// it an upper bound without an overflow obligation.
pub open spec fn sat_add(a: u64, b: u64) -> u64 {
    if a + b > u64::MAX {
        u64::MAX
    } else {
        (a + b) as u64
    }
}

/// Saturating addition, as executable code.
fn sat_add_exec(a: u64, b: u64) -> (r: u64)
    ensures
        r == sat_add(a, b),
{
    if a <= u64::MAX - b {
        a + b
    } else {
        u64::MAX
    }
}

/// Relies on `String::from_utf8`: it succeeds exactly on valid UTF-8 and
/// returns the string holding exactly those bytes.
#[verifier::external_body]
pub(crate) fn bytes_to_string(v: Vec<u8>) -> (r: Option<String>)
    ensures
        r is Some <==> valid_utf8(v@),
        r is Some ==> r->0@ == decode_utf8(v@),
{
    match String::from_utf8(v) {
        Ok(s) => Some(s),
        Err(_) => None,
    }
}

/// In a list of log files with distinct versions, the file map holds each
/// log's contents under its version.
proof fn lemma_logs_files_at(logs: Seq<LogFile>, i: int)
    requires
        0 <= i < logs.len(),
        forall|a: int, b: int| 0 <= a < b < logs.len() ==> logs[a].version < logs[b].version,
    ensures
        logs_files(logs).contains_key(logs[i].version),
        logs_files(logs)[logs[i].version] == logs[i].data@,
    decreases logs.len(),
{
    if i == logs.len() - 1 {
    } else {
        assert(logs.last().version != logs[i].version);
        assert(logs.drop_last()[i] == logs[i]);
        lemma_logs_files_at(logs.drop_last(), i);
    }
}

/// The file map of a list of log files holds no version the list lacks.
proof fn lemma_logs_files_dom(logs: Seq<LogFile>, v: u64)
    requires
        logs_files(logs).contains_key(v),
    ensures
        exists|j: int| 0 <= j < logs.len() && logs[j].version == v,
    decreases logs.len(),
{
    if logs.len() > 0 {
        if logs.last().version == v {
            assert(logs[logs.len() - 1].version == v);
        } else {
            lemma_logs_files_dom(logs.drop_last(), v);
            let j = choose|j: int| 0 <= j < logs.drop_last().len() && logs.drop_last()[j].version
                == v;
            assert(logs[j].version == v);
        }
    }
}

/// Appends the bytes of `src` to `out`.
fn append_bytes(out: &mut Vec<u8>, src: &Vec<u8>)
    ensures
        final(out)@ == old(out)@ + src@,
{
    let mut i: usize = 0;
    while i < src.len()
        invariant
            i <= src@.len(),
            out@ == old(out)@ + src@.take(i as int),
        decreases src@.len() - i,
    {
        out.push(src[i]);
        proof {
            assert(old(out)@ + src@.take(i + 1) =~= (old(out)@ + src@.take(i as int)).push(
                src@[i as int],
            ));
        }
        i = i + 1;
    }
    proof {
        assert(src@.take(src@.len() as int) =~= src@);
    }
}

/// Two locator sequences that agree on their first `i` entries have the
/// same length total over them.
proof fn lemma_locs_len_sum_pointwise(a: Seq<CommandPosition>, b: Seq<CommandPosition>, i: int)
    requires
        forall|j: int| 0 <= j < i ==> a[j] == b[j],
    ensures
        locs_len_sum(a, i) == locs_len_sum(b, i),
    decreases i,
{
    if i > 0 {
        lemma_locs_len_sum_pointwise(a, b, i - 1);
    }
}

/// Length totals only grow with more entries.
proof fn lemma_locs_len_sum_mono(locs: Seq<CommandPosition>, i: int, j: int)
    requires
        0 <= i <= j,
    ensures
        locs_len_sum(locs, i) <= locs_len_sum(locs, j),
    decreases j - i,
{
    if i < j {
        lemma_locs_len_sum_mono(locs, i, j - 1);
    }
}

/// The storage engine over one log directory.
pub struct KvStore {
    /// The in-memory index over live keys.
    index: KvIndex,
    /// The active version: the log being appended to.
    version: u64,
    /// Every version present in the directory, ascending; the last is the
    /// active one.
    versions: Vec<u64>,
    /// The estimated encoded length of superseded records.
    stale_bytes: u64,
    /// The writer of the active log: tracks its append offset.
    writer: KvsWriter,
    /// The modelled contents of every log file in the directory.
    files: Ghost<Map<u64, Seq<u8>>>,
}

impl KvStore {
    /// The modelled contents of every log file.
    pub closed spec fn files(self) -> Map<u64, Seq<u8>> {
        self.files@
    }

    /// Every version present, in ascending order; the last is active.
    pub closed spec fn versions_seq(self) -> Seq<u64> {
        self.versions@
    }

    /// The version of the log being appended to.
    pub closed spec fn active_version(self) -> u64 {
        self.version
    }

    /// The stale-byte counter.
    pub closed spec fn stale(self) -> u64 {
        self.stale_bytes
    }

    /// The append offset of the active log.
    pub closed spec fn wpos(self) -> u64 {
        self.writer.pos_spec()
    }

    /// The observable map: what `get` answers.
    pub closed spec fn model(self) -> Map<Seq<u8>, Seq<u8>> {
        self.index.model()
    }

    /// Whether the key (as UTF-8 bytes) is live.
    pub open spec fn has(self, k: Seq<u8>) -> bool {
        self.model().contains_key(k)
    }

    /// The locator of a live key's latest `Set` record.
    pub closed spec fn locator_of(self, k: Seq<u8>) -> CommandPosition {
        self.index.loc_of(k)
    }

    /// The exact bytes of a live key's record on disk.
    pub open spec fn record_bytes(self, k: Seq<u8>) -> Seq<u8> {
        let loc = self.locator_of(k);
        self.files()[loc.ver].subrange(loc.pos as int, loc.pos + loc.len)
    }

    /// The number of live keys.
    pub closed spec fn entry_count(self) -> nat {
        self.index.entries_seq().len()
    }

    /// The key stored in index slot `i`.
    pub closed spec fn entry_key(self, i: int) -> Seq<u8> {
        self.index.entries_seq()[i].key@
    }

    /// The locator stored in index slot `i`.
    pub closed spec fn entry_loc(self, i: int) -> CommandPosition {
        self.index.entries_seq()[i].loc
    }

    /// The total encoded length of all live records.
    pub closed spec fn live_bytes(self) -> int {
        locs_len_sum(
            Seq::new(self.entry_count(), |i: int| self.entry_loc(i)),
            self.entry_count() as int,
        )
    }

    /// The engine's invariant. The versions are strictly ascending and the
    /// active one is last; the modelled files cover exactly those versions;
    /// the active file's length is the writer's offset; replaying all files
    /// in order yields the index's observable map; and every live key's
    /// locator resolves to a whole `Set` record for that key.
    pub closed spec fn wf(self) -> bool {
        &&& self.index.wf()
        &&& self.versions@.len() >= 1
        &&& forall|i: int, j: int|
            0 <= i < j < self.versions@.len() ==> self.versions@[i] < self.versions@[j]
        &&& self.versions@.last() == self.version
        &&& forall|i: int|
            0 <= i < self.versions@.len() ==> self.files@.contains_key(#[trigger] self.versions@[i])
        &&& forall|v: u64| #[trigger] self.files@.contains_key(v) ==> self.versions@.contains(v)
        &&& forall|v: u64| #[trigger] self.files@.contains_key(v) ==> self.files@[v].len() <= u64::MAX
        &&& self.files@[self.version].len() == self.writer.pos_spec()
        &&& replay_logs(self.files@, self.versions@, Map::empty()) == Some(self.index.model())
        &&& forall|k: Seq<u8>|
            #[trigger] self.index.has(k) ==> valid_loc(
                self.files@,
                self.index.loc_of(k),
                k,
                self.index.model()[k],
            )
    }

    /// The public face of the invariant: what a caller may rely on of a
    /// well-formed store.
    pub proof fn lemma_store_invariant(self)
        requires
            self.wf(),
        ensures
            self.versions_seq().len() >= 1,
            forall|i: int, j: int|
                0 <= i < j < self.versions_seq().len() ==> self.versions_seq()[i]
                    < self.versions_seq()[j],
            self.versions_seq().last() == self.active_version(),
            forall|i: int|
                0 <= i < self.versions_seq().len() ==> self.files().contains_key(
                    #[trigger] self.versions_seq()[i],
                ),
            forall|v: u64| #[trigger] self.files().contains_key(v) ==> self.versions_seq().contains(v),
            self.files()[self.active_version()].len() == self.wpos(),
            replay_logs(self.files(), self.versions_seq(), Map::empty()) == Some(self.model()),
            forall|k: Seq<u8>|
                #[trigger] self.has(k) ==> valid_loc(
                    self.files(),
                    self.locator_of(k),
                    k,
                    self.model()[k],
                ),
    {
        assert forall|k: Seq<u8>| #[trigger]
            self.has(k) implies valid_loc(self.files(), self.locator_of(k), k, self.model()[k]) by {
            assert(self.index.has(k));
        }
    }

    /// Recovers a store from the existing logs, handed over in ascending
    /// version order with their full contents, and starts a fresh active
    /// log whose version is one above the largest existing one (one, when
    /// the directory was empty). Replays every record of every log to
    /// rebuild the index; a malformed or truncated record fails the whole
    /// recovery. The embedder creates the new, empty active log file.
    #[verifier::rlimit(60)]
    pub fn open(mut logs: Vec<LogFile>) -> (r: Result<KvStore, KvsError>)
        requires
            forall|a: int, b: int|
                0 <= a < b < logs@.len() ==> logs@[a].version < logs@[b].version,
            logs@.len() > 0 ==> logs@.last().version < u64::MAX,
        ensures
            (match r {
                Ok(s) => {
                    &&& s.wf()
                    &&& s.active_version() == (if logs@.len() == 0 {
                        1u64
                    } else {
                        (logs@.last().version + 1) as u64
                    })
                    &&& s.versions_seq() == logs_versions(logs@).push(s.active_version())
                    &&& s.files() == logs_files(logs@).insert(s.active_version(), Seq::<u8>::empty())
                    &&& replay_logs(logs_files(logs@), logs_versions(logs@), Map::empty()) == Some(
                        s.model(),
                    )
                    &&& s.wpos() == 0
                },
                Err(e) => e is Serde && replay_logs(
                    logs_files(logs@),
                    logs_versions(logs@),
                    Map::empty(),
                ) is None,
            }),
    {
        let ghost logs0 = logs@;
        let ghost allfiles = logs_files(logs0);
        let ghost vsall = logs_versions(logs0);
        let n = logs.len();
        let mut index = KvIndex::new();
        let mut stale: u64 = 0;
        let mut versions: Vec<u64> = Vec::new();
        let ghost mut files = Map::<u64, Seq<u8>>::empty();
        let mut last_version: u64 = 0;
        let mut failed: bool = false;
        let mut i: usize = 0;
        proof {
            assert(vsall.skip(0) =~= vsall);
            assert(logs0.take(0) =~= Seq::<LogFile>::empty());
            assert(versions@ =~= vsall.take(0));
            assert forall|k: Seq<u8>| !index.has(k) by {
                assert(index.model().contains_key(k) == index.has(k));
            }
        }
        while i < n
            invariant_except_break
                i <= n,
                n == logs@.len(),
                logs@.len() == logs0.len(),
                forall|j: int| i <= j < n ==> logs@[j] == logs0[j],
                forall|a: int, b: int|
                    0 <= a < b < logs0.len() ==> logs0[a].version < logs0[b].version,
                allfiles == logs_files(logs0),
                vsall == logs_versions(logs0),
                index.wf(),
                versions@ == vsall.take(i as int),
                files == logs_files(logs0.take(i as int)),
                i > 0 ==> last_version == logs0[i - 1].version,
                replay_logs(allfiles, vsall, Map::empty()) == replay_logs(
                    allfiles,
                    vsall.skip(i as int),
                    index.model(),
                ),
                forall|k: Seq<u8>|
                    #[trigger] index.has(k) ==> valid_loc(
                        files,
                        index.loc_of(k),
                        k,
                        index.model()[k],
                    ),
                forall|v: u64| #[trigger] files.contains_key(v) ==> files[v].len() <= u64::MAX,
                !failed,
            ensures
                failed ==> replay_logs(allfiles, vsall, Map::empty()) is None,
                !failed ==> ({
                    &&& i == n
                    &&& index.wf()
                    &&& versions@ == vsall.take(n as int)
                    &&& files == logs_files(logs0.take(n as int))
                    &&& (n > 0 ==> last_version == logs0[n - 1].version)
                    &&& replay_logs(allfiles, vsall, Map::empty()) == replay_logs(
                        allfiles,
                        vsall.skip(n as int),
                        index.model(),
                    )
                    &&& forall|k: Seq<u8>|
                        #[trigger] index.has(k) ==> valid_loc(
                            files,
                            index.loc_of(k),
                            k,
                            index.model()[k],
                        )
                    &&& forall|v: u64| #[trigger] files.contains_key(v) ==> files[v].len()
                        <= u64::MAX
                }),
            decreases n - i,
        {
            let mut tmp = LogFile { version: 0, data: Vec::new() };
            logs.set_and_swap(i, &mut tmp);
            proof {
                assert(tmp == logs0[i as int]);
            }
            let ver = tmp.version;
            last_version = ver;
            let dlen = tmp.data.len();
            let ghost d = logs0[i as int].data@;
            versions.push(ver);
            proof {
                assert(vsall.take(i + 1) =~= vsall.take(i as int).push(ver));
                // The version of this log is new to the file map: versions
                // are strictly ascending.
                if files.contains_key(ver) {
                    lemma_logs_files_dom(logs0.take(i as int), ver);
                    let j = choose|j: int|
                        0 <= j < logs0.take(i as int).len() && logs0.take(i as int)[j].version
                            == ver;
                    assert(logs0[j].version == ver);
                    assert(false);
                }
            }
            let ghost files2 = files.insert(ver, d);
            proof {
                assert(logs0.take(i + 1).drop_last() =~= logs0.take(i as int));
                assert(logs0.take(i + 1).last() == logs0[i as int]);
                assert(files2 == logs_files(logs0.take(i + 1)));
                assert forall|k: Seq<u8>| #[trigger]
                    index.has(k) implies valid_loc(
                    files2,
                    index.loc_of(k),
                    k,
                    index.model()[k],
                ) by {
                    assert(valid_loc(files, index.loc_of(k), k, index.model()[k]));
                    assert(index.loc_of(k).ver != ver);
                }
                // One step of the version order: this log replays next.
                assert(vsall.skip(i as int)[0] == vsall[i as int]);
                assert(vsall[i as int] == logs0[i as int].version);
                assert(vsall.skip(i as int).drop_first() =~= vsall.skip(i + 1));
                lemma_logs_files_at(logs0, i as int);
                assert(allfiles[ver] == d);
                files = files2;
            }
            let mut reader = KvsReader::new(tmp.data);
            loop
                invariant_except_break
                    !failed,
                invariant
                    reader.wf(),
                    reader.data_seq() == d,
                    d.len() == dlen,
                    index.wf(),
                    files.contains_key(ver),
                    files[ver] == d,
                    replay_logs(allfiles, vsall, Map::empty()) == (match replay_from(
                        d,
                        reader.pos_spec(),
                        index.model(),
                    ) {
                        Some(mf) => replay_logs(allfiles, vsall.skip(i + 1), mf),
                        None => None,
                    }),
                    forall|k: Seq<u8>|
                        #[trigger] index.has(k) ==> valid_loc(
                            files,
                            index.loc_of(k),
                            k,
                            index.model()[k],
                        ),
                    forall|v: u64| #[trigger] files.contains_key(v) ==> files[v].len() <= u64::MAX,
                ensures
                    index.wf(),
                    failed ==> replay_logs(allfiles, vsall, Map::empty()) is None,
                    !failed ==> replay_logs(allfiles, vsall, Map::empty()) == replay_logs(
                        allfiles,
                        vsall.skip(i + 1),
                        index.model(),
                    ),
                    forall|k: Seq<u8>|
                        #[trigger] index.has(k) ==> valid_loc(
                            files,
                            index.loc_of(k),
                            k,
                            index.model()[k],
                        ),
                    forall|v: u64| #[trigger] files.contains_key(v) ==> files[v].len() <= u64::MAX,
                decreases d.len() - reader.pos_spec(),
            {
                let ghost pos0 = reader.pos_spec();
                let ghost m0 = index.model();
                reader.skip_ws();
                proof {
                    lemma_replay_ws(d, pos0, reader.pos_spec(), m0);
                }
                if reader.at_end() {
                    proof {
                        assert(replay_from(d, d.len() as int, index.model()) == Some(
                            index.model(),
                        ));
                    }
                    break ;
                }
                let ghost pos1 = reader.pos_spec();
                match reader.read_record() {
                    Some((cmd, start, end)) => {
                        proof {
                            lemma_decode_rec_len(d.skip(start as int), cmd@, (end - start) as nat);
                            assert(d[start as int] == d.skip(start as int)[0]);
                            assert(!is_ws(d[start as int]));
                        }
                        match cmd {
                            Command::Put { key, value } => {
                                let ghost vv = value@;
                                let loc = CommandPosition {
                                    ver,
                                    pos: start as u64,
                                    len: (end - start) as u64,
                                };
                                let old_loc = index.insert(key, loc, Ghost(vv));
                                match old_loc {
                                    Some(l) => {
                                        stale = sat_add_exec(stale, l.len);
                                    },
                                    None => {},
                                }
                            },
                            Command::Remove { key } => {
                                match index.remove(&key) {
                                    Some(l) => {
                                        stale = sat_add_exec(stale, l.len);
                                    },
                                    None => {},
                                }
                                stale = sat_add_exec(stale, (end - start) as u64);
                            },
                        }
                        proof {
                            assert(index.model() == apply_rec(m0, cmd@));
                        }
                    },
                    None => {
                        proof {
                            assert(pos1 < d.len());
                            assert(!is_ws(d[pos1]));
                            assert(replay_from(d, pos1, index.model()) is None);
                            assert(replay_logs(allfiles, vsall, Map::empty()) is None);
                        }
                        failed = true;
                        break ;
                    },
                }
            }
            if failed {
                break ;
            }
            i = i + 1;
        }
        if failed {
            return Err(KvsError::Serde(String::from_str("malformed or truncated log record")));
        }
        let active: u64 = if n == 0 {
            1
        } else {
            last_version + 1
        };
        versions.push(active);
        let ghost files_fin = files.insert(active, Seq::<u8>::empty());
        let writer = KvsWriter::new();
        let store = KvStore {
            index,
            version: active,
            versions,
            stale_bytes: stale,
            writer,
            files: Ghost(files_fin),
        };
        proof {
            let vs_fin = store.versions@;
            assert(logs0.take(n as int) =~= logs0);
            assert(vsall.take(n as int) =~= vsall);
            assert(files == allfiles);
            assert(vsall.skip(n as int) =~= Seq::<u64>::empty());
            assert(vs_fin == vsall.push(active));
            assert(vsall.skip(n as int) =~= Seq::<u64>::empty());
            // Every existing version is below the new active one.
            assert forall|j: int| 0 <= j < vsall.len() implies vsall[j] < active by {
                if j < vsall.len() - 1 {
                    assert(logs0[j].version < logs0[vsall.len() - 1].version);
                }
            }
            // Replaying the new, empty active log changes nothing.
            lemma_replay_logs_snoc(allfiles, vsall, active, Seq::<u8>::empty(), Map::empty());
            assert(replay_from(Seq::<u8>::empty(), 0, store.index.model()) == Some(
                store.index.model(),
            ));
            match replay_logs(allfiles, vsall, Map::empty()) {
                Some(m2) => {
                    assert(replay_log(Seq::<u8>::empty(), m2) == Some(m2));
                },
                None => {},
            }
            // The file map covers exactly the versions, active included.
            assert forall|jj: int| 0 <= jj < vs_fin.len() implies files_fin.contains_key(
                #[trigger] vs_fin[jj],
            ) by {
                if jj < vs_fin.len() - 1 {
                    lemma_logs_files_at(logs0, jj);
                }
            }
            assert forall|v: u64| #[trigger]
                files_fin.contains_key(v) implies vs_fin.contains(v) by {
                if v == active {
                    assert(vs_fin[vs_fin.len() - 1] == v);
                } else {
                    lemma_logs_files_dom(logs0, v);
                    let j = choose|j: int| 0 <= j < logs0.len() && logs0[j].version == v;
                    assert(vs_fin[j] == v);
                }
            }
            // Every locator still resolves: the added active file is fresh.
            assert forall|k: Seq<u8>| #[trigger]
                store.index.has(k) implies valid_loc(
                files_fin,
                store.index.loc_of(k),
                k,
                store.index.model()[k],
            ) by {
                assert(valid_loc(files, store.index.loc_of(k), k, store.index.model()[k]));
                if store.index.loc_of(k).ver == active {
                    lemma_logs_files_dom(logs0, active);
                    let j = choose|j: int| 0 <= j < logs0.len() && logs0[j].version == active;
                    assert(vsall[j] < active);
                    assert(false);
                }
            }
            assert(store.wf());
        }
        Ok(store)
    }

    /// Opens a store with explicit options. The options carry nothing yet;
    /// recovery is exactly that of `open`.
    pub fn open_with_opts(logs: Vec<LogFile>, _opts: KvOpts) -> (r: Result<KvStore, KvsError>)
        requires
            forall|a: int, b: int|
                0 <= a < b < logs@.len() ==> logs@[a].version < logs@[b].version,
            logs@.len() > 0 ==> logs@.last().version < u64::MAX,
        ensures
            (match r {
                Ok(s) => {
                    &&& s.wf()
                    &&& s.active_version() == (if logs@.len() == 0 {
                        1u64
                    } else {
                        (logs@.last().version + 1) as u64
                    })
                    &&& s.versions_seq() == logs_versions(logs@).push(s.active_version())
                    &&& s.files() == logs_files(logs@).insert(s.active_version(), Seq::<u8>::empty())
                    &&& replay_logs(logs_files(logs@), logs_versions(logs@), Map::empty()) == Some(
                        s.model(),
                    )
                    &&& s.wpos() == 0
                },
                Err(e) => e is Serde && replay_logs(
                    logs_files(logs@),
                    logs_versions(logs@),
                    Map::empty(),
                ) is None,
            }),
    {
        KvStore::open(logs)
    }

    /// Close-and-reopen is identity: a store recovered from exactly the
    /// files of a well-formed store answers every lookup as that store
    /// did. The recovered model is what `open` promises of the files it
    /// was given; the invariant says the original's files replay to the
    /// original's model; so the two models coincide.
    pub proof fn lemma_reopen_preserves_model(s1: KvStore, s2: KvStore, logs: Seq<LogFile>)
        requires
            s1.wf(),
            logs_files(logs) == s1.files(),
            logs_versions(logs) == s1.versions_seq(),
            replay_logs(logs_files(logs), logs_versions(logs), Map::empty()) == Some(s2.model()),
        ensures
            s2.model() == s1.model(),
    {
    }

    /// A `get` answers with the value of the most recent `set`: after a
    /// mutation binds `key` to `value`, the stored bytes are the UTF-8
    /// encoding of `value`, so the string `get_value` promises to return
    /// is exactly `value` again. With `commit_set`'s `insert` and
    /// `commit_remove`'s `remove`, the store is observably a map.
    pub proof fn lemma_set_then_get(s: KvStore, key: Seq<char>, value: Seq<char>)
        requires
            s.has(encode_utf8(key)),
            s.model()[encode_utf8(key)] == encode_utf8(value),
        ensures
            valid_utf8(s.model()[encode_utf8(key)]),
            decode_utf8(s.model()[encode_utf8(key)]) == value,
    {
        vstd::utf8::encode_utf8_valid_utf8(value);
        vstd::utf8::encode_utf8_decode_utf8(value);
    }

    /// Encodes the `Set` record that `commit_set` will index, without
    /// changing anything: the bytes the embedder must append.
    pub fn prepare_set(&self, key: &String, value: &String) -> (enc: Vec<u8>)
        ensures
            enc@ == encoding(
                Record::Put { key: encode_utf8(key@), value: encode_utf8(value@) },
            ),
    {
        let kb = key.as_str().as_bytes_vec();
        let vb = value.as_str().as_bytes_vec();
        encode_record(&Command::Put { key: kb, value: vb })
    }

    /// Records a successful append of the `Set` record for `key` and
    /// `value` at the end of the active log: indexes the key at the
    /// record's byte range, counts the superseded record as stale, and
    /// reports the record's offset and whether compaction is due.
    pub fn commit_set(&mut self, key: &String, value: &String) -> (r: (u64, bool))
        requires
            old(self).wf(),
            old(self).wpos() + encoding(
                Record::Put { key: encode_utf8(key@), value: encode_utf8(value@) },
            ).len() <= u64::MAX,
        ensures
            final(self).wf(),
            ({
                let kb = encode_utf8(key@);
                let vb = encode_utf8(value@);
                let enc = encoding(Record::Put { key: kb, value: vb });
                let av = old(self).active_version();
                &&& final(self).model() == old(self).model().insert(kb, vb)
                &&& final(self).files() == old(self).files().insert(
                    av,
                    old(self).files()[av] + enc,
                )
                &&& final(self).versions_seq() == old(self).versions_seq()
                &&& final(self).active_version() == av
                &&& r.0 == old(self).wpos()
                &&& final(self).wpos() == old(self).wpos() + enc.len()
                &&& final(self).locator_of(kb) == (CommandPosition {
                    ver: av,
                    pos: r.0,
                    len: enc.len() as u64,
                })
                &&& valid_loc(
                    final(self).files(),
                    CommandPosition { ver: av, pos: r.0, len: enc.len() as u64 },
                    kb,
                    vb,
                )
                &&& forall|k: Seq<u8>|
                    k != kb && old(self).has(k) ==> final(self).locator_of(k) == old(
                        self,
                    ).locator_of(k)
                &&& final(self).stale() == (if old(self).has(kb) {
                    sat_add(old(self).stale(), old(self).locator_of(kb).len)
                } else {
                    old(self).stale()
                })
                &&& r.1 == (final(self).stale() > MAX_STALE_BYTES)
            }),
    {
        let ghost kb_spec = encode_utf8(key@);
        let ghost vb_spec = encode_utf8(value@);
        let ghost rec = Record::Put { key: kb_spec, value: vb_spec };
        let enc = self.prepare_set(key, value);
        let pos = self.writer.pos();
        let len64 = enc.len() as u64;
        self.writer.advance(len64);
        let kb = key.as_str().as_bytes_vec();
        let loc = CommandPosition { ver: self.version, pos, len: len64 };
        let old_loc = self.index.insert(kb, loc, Ghost(vb_spec));
        match old_loc {
            Some(l) => {
                self.stale_bytes = sat_add_exec(self.stale_bytes, l.len);
            },
            None => {},
        }
        let ghost av = old(self).version;
        let ghost f_old = old(self).files@[av];
        self.files = Ghost(self.files@.insert(av, f_old + enc@));
        proof {
            self.lemma_commit_append(*old(self), rec, enc@, pos);
            assert(self.index.has(kb_spec));
            assert(valid_loc(
                self.files@,
                self.index.loc_of(kb_spec),
                kb_spec,
                self.index.model()[kb_spec],
            ));
        }
        let need = self.stale_bytes > MAX_STALE_BYTES;
        (pos, need)
    }

    /// The locator of `key`'s latest `Set` record, or `None` when the key
    /// is not in the store. Reading exactly that byte range of that log and
    /// handing it to `get_value` yields the key's value.
    pub fn get_locator(&self, key: &String) -> (r: Option<CommandPosition>)
        requires
            self.wf(),
        ensures
            (match r {
                Some(loc) => {
                    &&& self.has(encode_utf8(key@))
                    &&& loc == self.locator_of(encode_utf8(key@))
                    &&& valid_loc(
                        self.files(),
                        loc,
                        encode_utf8(key@),
                        self.model()[encode_utf8(key@)],
                    )
                },
                None => !self.has(encode_utf8(key@)),
            }),
    {
        let kb = key.as_str().as_bytes_vec();
        let r = self.index.get(&kb);
        proof {
            if r is Some {
                assert(self.index.has(kb@));
            }
        }
        r
    }

    /// Decodes the record read for `key` and returns the value it binds.
    /// Under the requirement that `bytes` is exactly the key's record, this
    /// fails only when the stored value is not valid UTF-8.
    pub fn get_value(&self, key: &String, bytes: &Vec<u8>) -> (r: Result<String, KvsError>)
        requires
            self.wf(),
            self.has(encode_utf8(key@)),
            bytes@ == self.record_bytes(encode_utf8(key@)),
        ensures
            ({
                let v = self.model()[encode_utf8(key@)];
                match r {
                    Ok(s) => valid_utf8(v) && s@ == decode_utf8(v),
                    Err(e) => !valid_utf8(v) && e is Serde,
                }
            }),
    {
        let ghost kb_spec = encode_utf8(key@);
        let ghost v_spec = self.model()[kb_spec];
        let ghost loc = self.locator_of(kb_spec);
        proof {
            assert(self.index.has(kb_spec));
            assert(valid_loc(self.files@, loc, kb_spec, v_spec));
            let file = self.files@[loc.ver];
            assert(bytes@ =~= file.skip(loc.pos as int).take(loc.len as int));
            assert(bytes@.take(loc.len as int) =~= bytes@);
            lemma_decode_rec_prefix(
                file.skip(loc.pos as int),
                bytes@,
                Record::Put { key: kb_spec, value: v_spec },
                loc.len as nat,
            );
        }
        let kb = key.as_str().as_bytes_vec();
        match decode_record(bytes, 0) {
            Some((cmd, _n)) => {
                match cmd {
                    Command::Put { key: rec_key, value: rec_value } => {
                        if bytes_eq(&rec_key, &kb) {
                            match bytes_to_string(rec_value) {
                                Some(s) => Ok(s),
                                None => Err(
                                    KvsError::Serde(
                                        String::from_str("value bytes are not valid UTF-8"),
                                    ),
                                ),
                            }
                        } else {
                            Err(KvsError::UnexpectedCommandType(key.clone()))
                        }
                    },
                    Command::Remove { .. } => Err(KvsError::UnexpectedCommandType(key.clone())),
                }
            },
            None => Err(KvsError::Serde(String::from_str("malformed record"))),
        }
    }

    /// Encodes the `Remove` record that `commit_remove` will index, without
    /// changing anything. Fails with `KeyNotFound` exactly when the key is
    /// not in the store; nothing is to be appended then.
    pub fn prepare_remove(&self, key: &String) -> (r: Result<Vec<u8>, KvsError>)
        requires
            self.wf(),
        ensures
            (match r {
                Ok(enc) => self.has(encode_utf8(key@)) && enc@ == encoding(
                    Record::Remove { key: encode_utf8(key@) },
                ),
                Err(e) => !self.has(encode_utf8(key@)) && e is KeyNotFound,
            }),
    {
        let kb = key.as_str().as_bytes_vec();
        match self.index.get(&kb) {
            Some(_) => {
                proof {
                    assert(self.index.has(kb@));
                }
                Ok(encode_record(&Command::Remove { key: kb }))
            },
            None => Err(KvsError::KeyNotFound(key.clone())),
        }
    }

    /// Records a successful append of the `Remove` record for `key` at the
    /// end of the active log: unbinds the key and counts both the removed
    /// `Set` record and the `Remove` record itself as stale. Reports the
    /// record's offset.
    pub fn commit_remove(&mut self, key: &String) -> (pos: u64)
        requires
            old(self).wf(),
            old(self).has(encode_utf8(key@)),
            old(self).wpos() + encoding(Record::Remove { key: encode_utf8(key@) }).len()
                <= u64::MAX,
        ensures
            final(self).wf(),
            ({
                let kb = encode_utf8(key@);
                let enc = encoding(Record::Remove { key: kb });
                let av = old(self).active_version();
                &&& final(self).model() == old(self).model().remove(kb)
                &&& final(self).files() == old(self).files().insert(
                    av,
                    old(self).files()[av] + enc,
                )
                &&& final(self).versions_seq() == old(self).versions_seq()
                &&& final(self).active_version() == av
                &&& pos == old(self).wpos()
                &&& final(self).wpos() == old(self).wpos() + enc.len()
                &&& forall|k: Seq<u8>|
                    k != kb && old(self).has(k) ==> final(self).locator_of(k) == old(
                        self,
                    ).locator_of(k)
                &&& final(self).stale() == sat_add(
                    sat_add(old(self).stale(), old(self).locator_of(kb).len),
                    enc.len() as u64,
                )
            }),
    {
        let ghost kb_spec = encode_utf8(key@);
        let ghost rec = Record::Remove { key: kb_spec };
        let kb = key.as_str().as_bytes_vec();
        let enc = encode_record(&Command::Remove { key: kb });
        let pos = self.writer.pos();
        let len64 = enc.len() as u64;
        self.writer.advance(len64);
        let kb2 = key.as_str().as_bytes_vec();
        let old_loc = self.index.remove(&kb2);
        match old_loc {
            Some(l) => {
                self.stale_bytes = sat_add_exec(self.stale_bytes, l.len);
                self.stale_bytes = sat_add_exec(self.stale_bytes, len64);
            },
            None => {
                proof {
                    assert(old(self).index.has(kb_spec));
                    assert(false);
                }
            },
        }
        let ghost av = old(self).version;
        let ghost f_old = old(self).files@[av];
        self.files = Ghost(self.files@.insert(av, f_old + enc@));
        proof {
            self.lemma_commit_append(*old(self), rec, enc@, pos);
        }
        pos
    }

    /// The locator of every live entry, in index order: what the embedder
    /// must read, byte range by byte range, to drive `compact`.
    pub fn compact_plan(&self) -> (r: Vec<CommandPosition>)
        requires
            self.wf(),
        ensures
            r@.len() == self.entry_count(),
            forall|i: int| 0 <= i < r@.len() ==> #[trigger] r@[i] == self.entry_loc(i),
            forall|i: int|
                0 <= i < r@.len() ==> self.has(#[trigger] self.entry_key(i)) && r@[i]
                    == self.locator_of(self.entry_key(i)) && valid_loc(
                    self.files(),
                    r@[i],
                    self.entry_key(i),
                    self.model()[self.entry_key(i)],
                ),
            self.live_bytes() == locs_len_sum(r@, r@.len() as int),
    {
        let n = self.index.len();
        let mut out: Vec<CommandPosition> = Vec::new();
        let mut i: usize = 0;
        while i < n
            invariant
                self.wf(),
                i <= n,
                n == self.entry_count(),
                out@.len() == i,
                forall|j: int| 0 <= j < i ==> #[trigger] out@[j] == self.entry_loc(j),
            decreases n - i,
        {
            let loc = self.index.loc_at(i);
            out.push(loc);
            i = i + 1;
        }
        proof {
            assert forall|j: int|
                0 <= j < out@.len() implies self.has(#[trigger] self.entry_key(j)) && out@[j]
                == self.locator_of(self.entry_key(j)) && valid_loc(
                self.files(),
                out@[j],
                self.entry_key(j),
                self.model()[self.entry_key(j)],
            ) by {
                assert(self.index.has(self.entry_key(j)));
                assert(self.index.slot_map()[self.entry_key(j)] == j);
                assert(self.model().contains_key(self.entry_key(j)) == self.index.has(
                    self.entry_key(j),
                ));
            }
            lemma_locs_len_sum_pointwise(
                Seq::new(self.entry_count(), |i: int| self.entry_loc(i)),
                out@,
                out@.len() as int,
            );
        }
        out
    }

    /// Rewrites every live record into a fresh log and retires all earlier
    /// ones. `copies` holds, entry by entry in index order, the exact bytes
    /// of each live record, as `compact_plan` locates them. Two versions
    /// are allocated: the compacted log gets the lower one, and the one
    /// above it becomes the new, empty active log. No answer to any lookup
    /// changes, the stale-byte counter returns to zero, and every earlier
    /// version is superseded.
    #[verifier::rlimit(60)]
    pub fn compact(&mut self, copies: &Vec<Vec<u8>>) -> (r: CompactionOutcome)
        requires
            old(self).wf(),
            old(self).active_version() + 2 <= u64::MAX,
            old(self).live_bytes() <= u64::MAX,
            copies@.len() == old(self).entry_count(),
            forall|i: int|
                0 <= i < copies@.len() ==> #[trigger] copies@[i]@ == old(self).record_bytes(
                    old(self).entry_key(i),
                ),
        ensures
            final(self).wf(),
            final(self).model() == old(self).model(),
            r.compact_version == old(self).active_version() + 1,
            r.new_version == old(self).active_version() + 2,
            final(self).active_version() == r.new_version,
            final(self).versions_seq() == seq![r.compact_version, r.new_version],
            final(self).files() == Map::<u64, Seq<u8>>::empty().insert(
                r.compact_version,
                r.compact_data@,
            ).insert(r.new_version, Seq::<u8>::empty()),
            final(self).stale() == 0,
            final(self).wpos() == 0,
            r.stale_versions@ == old(self).versions_seq(),
            forall|j: int|
                0 <= j < r.stale_versions@.len() ==> #[trigger] r.stale_versions@[j]
                    < r.compact_version,
    {
        let ghost m0 = old(self).index.model();
        let ghost files0 = old(self).files@;
        let ghost es0 = old(self).index.entries_seq();
        let ghost locs0 = Seq::new(es0.len(), |j: int| es0[j].loc);
        let cv = self.version + 1;
        let av = self.version + 2;
        let n = self.index.len();
        let mut out: Vec<u8> = Vec::new();
        let mut new_pos: u64 = 0;
        let ghost mut mp = Map::<Seq<u8>, Seq<u8>>::empty();
        let mut i: usize = 0;
        proof {
            assert(locs0 =~= Seq::new(old(self).entry_count(), |j: int| old(self).entry_loc(j)));
        }
        while i < n
            invariant
                old(self).wf(),
                i <= n,
                n == es0.len(),
                es0 == old(self).index.entries_seq(),
                locs0 == Seq::new(es0.len(), |j: int| es0[j].loc),
                m0 == old(self).index.model(),
                files0 == old(self).files@,
                copies@.len() == n,
                forall|j: int|
                    0 <= j < n ==> #[trigger] copies@[j]@ == old(self).record_bytes(
                        old(self).entry_key(j),
                    ),
                locs_len_sum(locs0, n as int) <= u64::MAX,
                cv == old(self).version + 1,
                av == old(self).version + 2,
                old(self).version + 2 <= u64::MAX,
                self.version == old(self).version,
                self.versions@ == old(self).versions@,
                self.files@ == files0,
                self.writer == old(self).writer,
                self.index.wf(),
                self.index.slot_map() == old(self).index.slot_map(),
                self.index.entries_seq().len() == n,
                forall|j: int|
                    0 <= j < n ==> #[trigger] self.index.entries_seq()[j].key@ == es0[j].key@
                        && self.index.entries_seq()[j].val@ == es0[j].val@,
                forall|j: int|
                    i <= j < n ==> #[trigger] self.index.entries_seq()[j].loc == es0[j].loc,
                self.index.model() == m0,
                out@.len() == new_pos,
                new_pos == locs_len_sum(locs0, i as int),
                replay_from(out@, 0, Map::empty()) == Some(mp),
                forall|k: Seq<u8>|
                    #[trigger] mp.contains_key(k) ==> m0.contains_key(k) && mp[k] == m0[k],
                forall|j: int|
                    0 <= j < i ==> mp.contains_key(#[trigger] es0[j].key@) && mp[es0[j].key@]
                        == es0[j].val@,
                forall|j: int|
                    0 <= j < i ==> (#[trigger] self.index.entries_seq()[j].loc).ver == cv
                        && self.index.entries_seq()[j].loc.len == es0[j].loc.len
                        && self.index.entries_seq()[j].loc.pos
                        + self.index.entries_seq()[j].loc.len <= out@.len() && decode_rec(
                        out@.skip(self.index.entries_seq()[j].loc.pos as int),
                    ) == Some(
                        (
                            Record::Put { key: es0[j].key@, value: es0[j].val@ },
                            self.index.entries_seq()[j].loc.len as nat,
                        ),
                    ),
            decreases n - i,
        {
            let loc_i = self.index.loc_at(i);
            let ghost k_i = es0[i as int].key@;
            let ghost v_i = es0[i as int].val@;
            let ghost rec_i = Record::Put { key: k_i, value: v_i };
            proof {
                // The old invariant locates entry `i`'s record in the old
                // files; the copied bytes decode to exactly that record.
                assert(old(self).index.has(k_i));
                assert(old(self).index.slot_map()[k_i] == i as int);
                assert(old(self).index.loc_of(k_i) == es0[i as int].loc);
                assert(old(self).index.model()[k_i] == v_i);
                assert(valid_loc(files0, es0[i as int].loc, k_i, v_i));
                assert(old(self).has(k_i) == old(self).index.has(k_i));
                assert(old(self).entry_key(i as int) == k_i);
                let l = es0[i as int].loc;
                let file = files0[l.ver];
                assert(copies@[i as int]@ == file.subrange(l.pos as int, l.pos + l.len));
                assert(copies@[i as int]@ =~= file.skip(l.pos as int).take(l.len as int));
                assert(copies@[i as int]@.take(l.len as int) =~= copies@[i as int]@);
                lemma_decode_rec_prefix(
                    file.skip(l.pos as int),
                    copies@[i as int]@,
                    rec_i,
                    l.len as nat,
                );
                // The running offset stays within the grand total.
                lemma_locs_len_sum_mono(locs0, i + 1, n as int);
                assert(locs_len_sum(locs0, i + 1) == locs_len_sum(locs0, i as int) + l.len);
            }
            let ghost out0 = out@;
            append_bytes(&mut out, &copies[i]);
            proof {
                let l = es0[i as int].loc;
                assert(out@.skip(new_pos as int) =~= copies@[i as int]@);
                lemma_replay_append(out0, copies@[i as int]@, 0, Map::empty(), mp, rec_i);
                // Records already in place decode as before: the file only
                // grew at the end.
                assert forall|j: int|
                    0 <= j < i implies (#[trigger] self.index.entries_seq()[j].loc).ver == cv
                    && self.index.entries_seq()[j].loc.len == es0[j].loc.len
                    && self.index.entries_seq()[j].loc.pos + self.index.entries_seq()[j].loc.len
                    <= out@.len() && decode_rec(out@.skip(self.index.entries_seq()[j].loc.pos as int))
                    == Some(
                    (
                        Record::Put { key: es0[j].key@, value: es0[j].val@ },
                        self.index.entries_seq()[j].loc.len as nat,
                    ),
                ) by {
                    let lj = self.index.entries_seq()[j].loc;
                    assert(out@.skip(lj.pos as int).take(lj.len as int) =~= out0.skip(
                        lj.pos as int,
                    ).take(lj.len as int));
                    lemma_decode_rec_prefix(
                        out0.skip(lj.pos as int),
                        out@.skip(lj.pos as int),
                        Record::Put { key: es0[j].key@, value: es0[j].val@ },
                        lj.len as nat,
                    );
                }
            }
            let newloc = CommandPosition { ver: cv, pos: new_pos, len: loc_i.len };
            self.index.set_loc(i, newloc);
            proof {
                mp = mp.insert(k_i, v_i);
                assert(self.index.model() =~= m0);
            }
            new_pos = new_pos + loc_i.len;
            i = i + 1;
        }
        proof {
            // Every live key was rewritten, so the rebuilt map is the
            // observable map itself.
            assert forall|k: Seq<u8>| #[trigger]
                m0.contains_key(k) implies mp.contains_key(k) && mp[k] == m0[k] by {
                assert(old(self).index.has(k));
                let j = old(self).index.slot_map()[k];
                assert(es0[j].key@ == k);
                assert(m0[k] == es0[j].val@);
            }
            assert(mp =~= m0);
        }
        let mut stale_versions: Vec<u64> = Vec::new();
        stale_versions.push(cv);
        stale_versions.push(av);
        core::mem::swap(&mut self.versions, &mut stale_versions);
        self.version = av;
        self.writer = KvsWriter::new();
        self.stale_bytes = 0;
        let ghost files_fin = Map::<u64, Seq<u8>>::empty().insert(cv, out@).insert(
            av,
            Seq::<u8>::empty(),
        );
        self.files = Ghost(files_fin);
        proof {
            // The two new logs replay to the observable map: the compacted
            // log alone rebuilds it, and the empty active log adds nothing.
            assert(self.versions@ =~= seq![cv, av]);
            assert(self.versions@[0] == cv && self.versions@[1] == av);
            assert(self.versions@.drop_first() =~= seq![av]);
            assert(seq![av].drop_first() =~= Seq::<u64>::empty());
            assert(files_fin[cv] == out@);
            assert(files_fin[av] =~= Seq::<u8>::empty());
            assert(replay_from(Seq::<u8>::empty(), 0, m0) == Some(m0));
            assert(replay_logs(files_fin, Seq::<u64>::empty(), m0) == Some(m0));
            assert(replay_logs(files_fin, seq![av], m0) == Some(m0));
            assert(replay_logs(files_fin, self.versions@, Map::empty()) == Some(m0));
            // Every locator now points into the compacted log.
            assert forall|k: Seq<u8>| #[trigger]
                self.index.has(k) implies valid_loc(
                files_fin,
                self.index.loc_of(k),
                k,
                self.index.model()[k],
            ) by {
                let j = self.index.slot_map()[k];
                assert(self.index.entries_seq()[j].key@ == es0[j].key@);
                assert(self.index.model()[k] == self.index.entries_seq()[j].val@);
            }
            // The retired versions all precede the compacted one.
            assert forall|j: int|
                0 <= j < old(self).versions@.len() implies #[trigger] old(self).versions@[j]
                < cv by {
                if j < old(self).versions@.len() - 1 {
                    assert(old(self).versions@[j] < old(self).versions@[old(
                        self,
                    ).versions@.len() - 1]);
                }
            }
            assert(self.wf());
        }
        CompactionOutcome {
            compact_version: cv,
            new_version: av,
            compact_data: out,
            stale_versions,
        }
    }

    /// After an append of one whole record to the active log and the
    /// matching index update, the invariant holds again: the shared proof
    /// of `commit_set` and `commit_remove`.
    proof fn lemma_commit_append(&self, prior: KvStore, rec: Record, enc: Seq<u8>, pos: u64)
        requires
            prior.wf(),
            enc == encoding(rec),
            pos == prior.writer.pos_spec(),
            prior.files@[prior.version].len() + enc.len() <= u64::MAX,
            self.version == prior.version,
            self.versions@ == prior.versions@,
            self.files@ == prior.files@.insert(prior.version, prior.files@[prior.version] + enc),
            self.writer.pos_spec() == prior.writer.pos_spec() + enc.len(),
            self.index.wf(),
            self.index.model() == apply_rec(prior.index.model(), rec),
            (match rec {
                Record::Put { key, value } => {
                    &&& self.index.has(key)
                    &&& self.index.loc_of(key) == (CommandPosition {
                        ver: prior.version,
                        pos: pos,
                        len: enc.len() as u64,
                    })
                    &&& forall|k: Seq<u8>|
                        k != key && prior.index.has(k) ==> self.index.has(k)
                            && self.index.loc_of(k) == prior.index.loc_of(k)
                    &&& forall|k: Seq<u8>| k != key ==> self.index.has(k) == prior.index.has(k)
                },
                Record::Remove { key } => {
                    &&& !self.index.has(key)
                    &&& forall|k: Seq<u8>|
                        k != key && prior.index.has(k) ==> self.index.has(k)
                            && self.index.loc_of(k) == prior.index.loc_of(k)
                    &&& forall|k: Seq<u8>| k != key ==> self.index.has(k) == prior.index.has(k)
                },
            }),
        ensures
            self.wf(),
    {
        let av = prior.version;
        let f_old = prior.files@[av];
        let f_new = f_old + enc;
        let vs = prior.versions@;
        let vs0 = vs.drop_last();
        lemma_decode_encoding(rec, Seq::empty());
        assert(encoding(rec) + Seq::<u8>::empty() =~= enc);
        assert(decode_rec(enc) == Some((rec, enc.len() as nat)));

        // The version order is the sealed versions followed by the active
        // one, whose version is larger than all of theirs.
        assert(vs =~= vs0.push(av));
        assert(forall|i: int| 0 <= i < vs0.len() ==> vs0[i] != av);

        // Replaying the old files equals replaying the sealed ones and then
        // the old active file.
        assert(prior.files@.insert(av, f_old) =~= prior.files@);
        lemma_replay_logs_snoc(prior.files@, vs0, av, f_old, Map::empty());
        match replay_logs(prior.files@, vs0, Map::empty()) {
            Some(m2) => {
                assert(replay_log(f_old, m2) == Some(prior.index.model()));
                // The sealed files are untouched, so the same decomposition
                // applies to the new files, with the extended active file.
                assert forall|i: int| 0 <= i < vs0.len() implies self.files@[#[trigger] vs0[i]]
                    == prior.files@[vs0[i]] by {}
                lemma_replay_logs_snoc(prior.files@, vs0, av, f_new, Map::empty());
                assert(replay_logs(prior.files@, vs0, Map::empty()) == Some(m2));
                lemma_replay_append(f_old, enc, 0, m2, prior.index.model(), rec);
                assert(replay_log(f_new, m2) == Some(apply_rec(prior.index.model(), rec)));
                assert(replay_logs(self.files@, vs, Map::empty()) == Some(self.index.model()));
            },
            None => {
                assert(false);
            },
        }

        // Every locator still resolves: old records are untouched bytes
        // (the active file only grew), and a `Set` record's new locator
        // points at the appended encoding itself.
        assert forall|k: Seq<u8>| #[trigger]
            self.index.has(k) implies valid_loc(
            self.files@,
            self.index.loc_of(k),
            k,
            self.index.model()[k],
        ) by {
            let newloc = CommandPosition { ver: av, pos: pos, len: enc.len() as u64 };
            let is_new_key = match rec {
                Record::Put { key, value } => k == key,
                Record::Remove { key } => false,
            };
            if is_new_key {
                assert(f_new.skip(pos as int) =~= enc);
                match rec {
                    Record::Put { key, value } => {
                        assert(self.index.model()[k] == value);
                    },
                    Record::Remove { key } => {},
                }
            } else {
                assert(prior.index.has(k));
                assert(valid_loc(prior.files@, prior.index.loc_of(k), k, prior.index.model()[k]));
                let loc = prior.index.loc_of(k);
                let mk = prior.index.model()[k];
                assert(self.index.model()[k] == mk);
                if loc.ver == av {
                    assert(f_new.skip(loc.pos as int).take(loc.len as int) =~= f_old.skip(
                        loc.pos as int,
                    ).take(loc.len as int));
                    lemma_decode_rec_prefix(
                        f_old.skip(loc.pos as int),
                        f_new.skip(loc.pos as int),
                        Record::Put { key: k, value: mk },
                        loc.len as nat,
                    );
                } else {
                    assert(self.files@[loc.ver] == prior.files@[loc.ver]);
                }
            }
        }
    }
}

} // verus!
