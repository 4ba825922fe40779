//! What whole backups and restores come to: the laws over all the steps of a
//! run, with the daemon's store beside them.
use vstd::prelude::*;

use crate::backup::{
    blobs_carry, chunk_added, file_ended, file_refs, fresh, law_ships_exactly_what_is_missing,
    plaintexts, round_made, size_sum, to_ship, ChunkBlob, Session,
};
use crate::chunking::{blake3_keyed_hash, Chunk, ChunkId};
use crate::compression::{capped, encoded_run, total_len};
use crate::manifest::{ids_view, FileEntry, FileModel};
use crate::restore::{
    blobs_taken, law_shipped_chunks_verify, law_steps_hand_out_the_file, pieces_joined,
    restored_bytes, verified_plaintext, FileRestore, RestoreReport,
};
use crate::snapshot_id::SnapshotId;

verus! {

/// What a session is given to do.
pub enum BackupMove {
    /// The next chunk of the open file.
    Piece(Chunk),
    /// The end of the open file.
    End {
        /// The path.
        path: Seq<char>,
        /// Whole seconds of the modification time.
        mtime_secs: i64,
        /// Its nanoseconds.
        mtime_nanos: u32,
        /// The metadata word.
        mode: u32,
    },
    /// A round with the daemon.
    Round {
        /// What the daemon says it lacks.
        missing: Set<Seq<u8>>,
        /// The nonces drawn.
        nonces: Seq<[u8; 24]>,
        /// What is shipped.
        blobs: Seq<ChunkBlob>,
    },
}

/// What a daemon holds: blobs by identity.
pub type Store = Map<Seq<u8>, Seq<u8>>;

/// The store after blobs were uploaded.
pub open spec fn uploaded(store: Store, blobs: Seq<ChunkBlob>) -> Store
    decreases blobs.len(),
{
    if blobs.len() == 0 {
        store
    } else {
        uploaded(store, blobs.drop_last()).insert(
            blobs.last().chunk_id@,
            blobs.last().data@,
        )
    }
}

/// Whether a daemon tells of each waiting chunk whether it lacks it.
pub open spec fn tells_truly(
    store: Store,
    pending: Seq<(ChunkId, Vec<u8>)>,
    missing: Set<Seq<u8>>,
) -> bool {
    forall|i: int|
        #![trigger pending[i]]
        0 <= i < pending.len() ==> (missing.contains(pending[i].0@) <==> !store.contains_key(
            pending[i].0@,
        ))
}

/// Whether a move leads from one session and store to the next.
pub open spec fn moved(a: Session, sa: Store, m: BackupMove, b: Session, sb: Store) -> bool {
    match m {
        BackupMove::Piece(chunk) => chunk_added(a, chunk, b) && sb == sa,
        BackupMove::End { path, mtime_secs, mtime_nanos, mode } => file_ended(
            a,
            path,
            mtime_secs,
            mtime_nanos,
            mode,
            b,
        ) && sb == sa,
        BackupMove::Round { missing, nonces, blobs } => {
            &&& round_made(a, missing, nonces, blobs, b)
            &&& tells_truly(sa, a.pending@, missing)
            &&& sb == uploaded(sa, blobs)
        },
    }
}

/// A backup from its start: the session and the daemon's store between the
/// moves.
pub struct BackupRun {
    /// The session before each move and after the last.
    pub states: Seq<Session>,
    /// The store before each move and after the last.
    pub stores: Seq<Store>,
    /// The moves.
    pub moves: Seq<BackupMove>,
}

impl BackupRun {
    /// Whether the session starts fresh and each move leads on.
    pub open spec fn valid(self) -> bool {
        &&& self.states.len() == self.moves.len() + 1
        &&& self.stores.len() == self.moves.len() + 1
        &&& fresh(self.states[0], self.states[0].report.snapshot_id)
        &&& forall|i: int|
            #![trigger self.moves[i]]
            0 <= i < self.moves.len() ==> moved(
                self.states[i],
                self.stores[i],
                self.moves[i],
                self.states[i + 1],
                self.stores[i + 1],
            )
    }

    /// Whether every file is closed and nothing waits.
    pub open spec fn done(self) -> bool {
        &&& self.valid()
        &&& self.end().pending@.len() == 0
        &&& self.end().open_chunks@.len() == 0
    }

    /// The session after the last move.
    pub open spec fn end(self) -> Session {
        self.states.last()
    }

    /// The store after the last move.
    pub open spec fn store(self) -> Store {
        self.stores.last()
    }
}

/// All chunk references of a session, those of the open file last.
pub open spec fn all_refs(s: Session) -> Seq<Seq<u8>> {
    file_refs(s.files@) + ids_view(s.open_chunks@)
}

proof fn lemma_uploaded(store: Store, blobs: Seq<ChunkBlob>, x: Seq<u8>)
    ensures
        store.contains_key(x) ==> uploaded(store, blobs).contains_key(x),
        forall|k: int|
            #![trigger blobs[k]]
            0 <= k < blobs.len() ==> uploaded(store, blobs).contains_key(blobs[k].chunk_id@),
        (forall|k: int| #![trigger blobs[k]] 0 <= k < blobs.len() ==> blobs[k].chunk_id@ != x) ==> (
        uploaded(store, blobs).contains_key(x) <==> store.contains_key(x)) && (store.contains_key(
            x,
        ) ==> uploaded(store, blobs)[x] == store[x]),
        uploaded(store, blobs).contains_key(x) && !store.contains_key(x) ==> exists|k: int|
            #![trigger blobs[k]]
            0 <= k < blobs.len() && blobs[k].chunk_id@ == x && uploaded(store, blobs)[x]
                == blobs[k].data@,
    decreases blobs.len(),
{
    if blobs.len() > 0 {
        let fewer = blobs.drop_last();
        lemma_uploaded(store, fewer, x);
        assert(blobs[blobs.len() - 1] == blobs.last());
        assert forall|k: int| #![trigger blobs[k]] 0 <= k < blobs.len() implies uploaded(
            store,
            blobs,
        ).contains_key(blobs[k].chunk_id@) by {
            if k < fewer.len() {
                assert(fewer[k] == blobs[k]);
            }
        }
        if forall|k: int| #![trigger blobs[k]] 0 <= k < blobs.len() ==> blobs[k].chunk_id@ != x {
            assert forall|k: int| #![trigger fewer[k]] 0 <= k < fewer.len() implies x
                != fewer[k].chunk_id@ by {
                assert(fewer[k] == blobs[k]);
            }
        }
        if uploaded(store, blobs).contains_key(x) && !store.contains_key(x) {
            if blobs.last().chunk_id@ != x {
                let k = choose|k: int|
                    #![trigger fewer[k]]
                    0 <= k < fewer.len() && fewer[k].chunk_id@ == x && uploaded(store, fewer)[x]
                        == fewer[k].data@;
                assert(blobs[k] == fewer[k]);
            }
        }
    }
}

/// The blobs of a round are those of waiting chunks that the store lacks.
proof fn lemma_round_blobs(a: Session, sa: Store, m: BackupMove, b: Session, sb: Store, k: int)
    requires
        moved(a, sa, m, b, sb),
        m matches BackupMove::Round { missing, nonces, blobs } && 0 <= k < blobs.len(),
    ensures
        m matches BackupMove::Round { missing, nonces, blobs } && {
            let picks = to_ship(a.pending@, missing, a.pending@.len() as int);
            &&& blobs.len() == picks.len()
            &&& 0 <= picks[k] < a.pending@.len()
            &&& blobs[k].chunk_id@ == a.pending@[picks[k]].0@
            &&& !sa.contains_key(blobs[k].chunk_id@)
        },
{
    match m {
        BackupMove::Round { missing, nonces, blobs } => {
            let p = a.pending@;
            let picks = to_ship(p, missing, p.len() as int);
            law_ships_exactly_what_is_missing(p, missing, p.len() as int);
            let w = blobs[k];
            let at = picks[k];
            assert(picks.contains(at));
            assert(missing.contains(p[at].0@));
        },
        _ => {},
    }
}

proof fn lemma_store_only_grows(run: BackupRun, i: int, x: Seq<u8>)
    requires
        run.valid(),
        0 <= i < run.states.len(),
    ensures
        run.stores[0].contains_key(x) ==> run.stores[i].contains_key(x) && run.stores[i][x]
            == run.stores[0][x],
    decreases i,
{
    if i > 0 {
        lemma_store_only_grows(run, i - 1, x);
        let m = run.moves[i - 1];
        match m {
            BackupMove::Round { missing, nonces, blobs } => {
                if run.stores[0].contains_key(x) {
                    assert forall|k: int|
                        #![trigger blobs[k]]
                        0 <= k < blobs.len() implies blobs[k].chunk_id@ != x by {
                        lemma_round_blobs(
                            run.states[i - 1],
                            run.stores[i - 1],
                            m,
                            run.states[i],
                            run.stores[i],
                            k,
                        );
                    }
                    lemma_uploaded(run.stores[i - 1], blobs, x);
                }
            },
            _ => {},
        }
    }
}

/// Every chunk that came is referred to, and is waiting or in the store.
proof fn lemma_seen(run: BackupRun, i: int, x: Seq<u8>)
    requires
        run.valid(),
        0 <= i < run.states.len(),
        run.states[i].seen@.contains(x),
    ensures
        all_refs(run.states[i]).contains(x),
        run.stores[i].contains_key(x) || exists|k: int|
            #![trigger run.states[i].pending@[k]]
            0 <= k < run.states[i].pending@.len() && run.states[i].pending@[k].0@ == x,
    decreases i,
{
    if i > 0 {
        let (a, b) = (run.states[i - 1], run.states[i]);
        let (sa, sb) = (run.stores[i - 1], run.stores[i]);
        let m = run.moves[i - 1];
        assert(moved(a, sa, m, b, sb));
        let (before, after) = (all_refs(a), all_refs(b));
        match m {
            BackupMove::Piece(chunk) => {
                assert(after =~= before.push(chunk.id@));
                if a.seen@.contains(x) {
                    lemma_seen(run, i - 1, x);
                    let r = choose|r: int| 0 <= r < before.len() && before[r] == x;
                    assert(after[r] == x);
                    if !sa.contains_key(x) {
                        let k = choose|k: int|
                            #![trigger a.pending@[k]]
                            0 <= k < a.pending@.len() && a.pending@[k].0@ == x;
                        assert(b.pending@[k] == a.pending@[k]);
                    }
                } else {
                    assert(after[before.len() as int] == x);
                    assert(b.pending@[a.pending@.len() as int].0@ == x);
                }
            },
            BackupMove::End { path, mtime_secs, mtime_nanos, mode } => {
                lemma_seen(run, i - 1, x);
                assert(ids_view(b.files@.last().chunks@) == b.files@.last()@.chunks);
                assert(after =~= before);
                if !sa.contains_key(x) {
                    let k = choose|k: int|
                        #![trigger a.pending@[k]]
                        0 <= k < a.pending@.len() && a.pending@[k].0@ == x;
                    assert(b.pending@[k].0@ == x);
                }
            },
            BackupMove::Round { missing, nonces, blobs } => {
                lemma_seen(run, i - 1, x);
                lemma_uploaded(sa, blobs, x);
                if !sa.contains_key(x) {
                    let p = a.pending@;
                    let k = choose|k: int|
                        #![trigger p[k]]
                        0 <= k < p.len() && p[k].0@ == x;
                    let picks = to_ship(p, missing, p.len() as int);
                    law_ships_exactly_what_is_missing(p, missing, p.len() as int);
                    assert(missing.contains(p[k].0@));
                    let r = choose|r: int| 0 <= r < picks.len() && picks[r] == k;
                    lemma_round_blobs(a, sa, m, b, sb, r);
                    assert(blobs[r].chunk_id@ == x);
                }
            },
        }
    }
}

/// Once a backup is done, the daemon holds every chunk that it refers to.
pub proof fn law_backup_leaves_every_chunk_stored(run: BackupRun, j: int)
    requires
        run.done(),
        0 <= j < file_refs(run.end().files@).len(),
    ensures
        run.store().contains_key(file_refs(run.end().files@)[j]),
{
    lemma_wf(run, run.moves.len() as int);
    let x = file_refs(run.end().files@)[j];
    lemma_seen(run, run.moves.len() as int, x);
}

proof fn lemma_wf(run: BackupRun, i: int)
    requires
        run.valid(),
        0 <= i < run.states.len(),
    ensures
        run.states[i].wf(),
        run.states[i].key@ == run.states[0].key@,
        run.states[i].report.snapshot_id == run.states[0].report.snapshot_id,
    decreases i,
{
    if i > 0 {
        lemma_wf(run, i - 1);
        assert(moved(
            run.states[i - 1],
            run.stores[i - 1],
            run.moves[i - 1],
            run.states[i],
            run.stores[i],
        ));
    }
}

proof fn lemma_nothing_ships(run: BackupRun, i: int)
    requires
        run.valid(),
        0 <= i < run.states.len(),
        forall|x: Seq<u8>| #[trigger]
            run.states[i].seen@.contains(x) ==> run.stores[0].contains_key(x),
    ensures
        run.states[i].report.chunks_uploaded == 0,
        run.states[i].report.upload_bytes == 0,
    decreases i,
{
    if i > 0 {
        let (a, b) = (run.states[i - 1], run.states[i]);
        let m = run.moves[i - 1];
        assert(moved(a, run.stores[i - 1], m, b, run.stores[i]));
        assert forall|x: Seq<u8>| #[trigger] a.seen@.contains(x) implies run.stores[0].contains_key(
            x,
        ) by {
            assert(b.seen@.contains(x));
        }
        lemma_nothing_ships(run, i - 1);
        match m {
            BackupMove::Round { missing, nonces, blobs } => {
                let p = a.pending@;
                lemma_wf(run, i - 1);
                assert forall|k: int| #![trigger p[k]] 0 <= k < p.len() implies !missing.contains(
                    p[k].0@,
                ) by {
                    assert(a.seen@.contains(p[k].0@));
                    lemma_store_only_grows(run, i - 1, p[k].0@);
                }
                law_ships_exactly_what_is_missing(p, missing, p.len() as int);
                assert(blobs.len() == 0);
            },
            _ => {},
        }
    }
}

/// The ledger of a backup that is done balances: every distinct chunk was
/// shipped or found, and the bytes are those of the files. A backup whose
/// chunks the daemon all held before ships nothing.
pub proof fn law_known_chunks_are_not_shipped(run: BackupRun)
    requires
        run.done(),
    ensures
        ({
            let r = run.end().report;
            &&& r.chunks_uploaded + r.chunks_deduped == r.chunks_unique
            &&& r.chunks_unique <= r.chunks_total
            &&& r.source_bytes == size_sum(run.end().files@)
            &&& r.files == run.end().files@.len()
            &&& (forall|j: int|
                #![trigger file_refs(run.end().files@)[j]]
                0 <= j < file_refs(run.end().files@).len() ==> run.stores[0].contains_key(
                    file_refs(run.end().files@)[j],
                )) ==> {
                &&& r.chunks_uploaded == 0
                &&& r.upload_bytes == 0
                &&& r.chunks_deduped == r.chunks_unique
            }
        }),
{
    let n = run.moves.len() as int;
    lemma_wf(run, n);
    let refs = file_refs(run.end().files@);
    if forall|j: int|
        #![trigger file_refs(run.end().files@)[j]]
        0 <= j < file_refs(run.end().files@).len() ==> run.stores[0].contains_key(
            file_refs(run.end().files@)[j],
        ) {
        assert forall|x: Seq<u8>| #[trigger]
            run.states[n].seen@.contains(x) implies run.stores[0].contains_key(x) by {
            lemma_seen(run, n, x);
            assert(all_refs(run.end()) =~= refs);
            let j = choose|j: int| 0 <= j < refs.len() && refs[j] == x;
            assert(file_refs(run.end().files@)[j] == x);
        }
        lemma_nothing_ships(run, n);
    }
}

/// A second backup that refers to no chunk but those of a first, with a daemon
/// that lost nothing in between, ships nothing: every chunk is deduplicated.
pub proof fn law_second_backup_ships_nothing(first: BackupRun, second: BackupRun)
    requires
        first.done(),
        second.done(),
        forall|x: Seq<u8>| #[trigger]
            first.store().contains_key(x) ==> second.stores[0].contains_key(x),
        forall|j: int|
            #![trigger file_refs(second.end().files@)[j]]
            0 <= j < file_refs(second.end().files@).len() ==> file_refs(
                first.end().files@,
            ).contains(file_refs(second.end().files@)[j]),
    ensures
        second.end().report.chunks_uploaded == 0,
        second.end().report.upload_bytes == 0,
        second.end().report.chunks_deduped == second.end().report.chunks_unique,
{
    let refs = file_refs(first.end().files@);
    assert forall|j: int|
        #![trigger file_refs(second.end().files@)[j]]
        0 <= j < file_refs(second.end().files@).len() implies second.stores[0].contains_key(
        file_refs(second.end().files@)[j],
    ) by {
        let x = file_refs(second.end().files@)[j];
        let k = choose|k: int| 0 <= k < refs.len() && refs[k] == x;
        law_backup_leaves_every_chunk_stored(first, k);
        assert(first.store().contains_key(x));
    }
    law_known_chunks_are_not_shipped(second);
}

/// The pieces of the open file after the first `n` moves.
pub open spec fn open_pieces(moves: Seq<BackupMove>, n: int) -> Seq<Chunk>
    decreases n,
{
    if n <= 0 {
        Seq::empty()
    } else {
        match moves[n - 1] {
            BackupMove::Piece(chunk) => open_pieces(moves, n - 1).push(chunk),
            BackupMove::End { .. } => Seq::empty(),
            BackupMove::Round { .. } => open_pieces(moves, n - 1),
        }
    }
}

/// The bytes of each piece.
pub open spec fn piece_bytes(pieces: Seq<Chunk>) -> Seq<Seq<u8>> {
    Seq::new(pieces.len(), |k: int| pieces[k].data@)
}

/// The identity of each piece.
pub open spec fn piece_ids(pieces: Seq<Chunk>) -> Seq<Seq<u8>> {
    Seq::new(pieces.len(), |k: int| pieces[k].id@)
}

/// The files that were closed in the first `n` moves: each as it was given, with
/// its pieces.
pub open spec fn closed_files(moves: Seq<BackupMove>, n: int) -> Seq<(FileModel, Seq<Chunk>)>
    decreases n,
{
    if n <= 0 {
        Seq::empty()
    } else {
        match moves[n - 1] {
            BackupMove::End { path, mtime_secs, mtime_nanos, mode } => {
                let pieces = open_pieces(moves, n - 1);
                closed_files(moves, n - 1).push(
                    (
                        FileModel {
                            path,
                            size: total_len(piece_bytes(pieces)) as u64,
                            mtime_secs,
                            mtime_nanos,
                            mode,
                            chunks: piece_ids(pieces),
                        },
                        pieces,
                    ),
                )
            },
            _ => closed_files(moves, n - 1),
        }
    }
}

/// Whether a chunk is among the moves.
pub open spec fn came(moves: Seq<BackupMove>, chunk: Chunk) -> bool {
    exists|i: int| #![trigger moves[i]] 0 <= i < moves.len() && moves[i] == BackupMove::Piece(chunk)
}

/// Whether identities are taken under the key, no two of the contents share
/// one, and what the store held of them before reads back.
pub open spec fn identities_sound(run: BackupRun, id_key: Seq<u8>) -> bool {
    &&& forall|c: Chunk| #[trigger]
        came(run.moves, c) ==> c.id@ == blake3_keyed_hash(id_key, c.data@)
    &&& forall|c: Chunk, d: Chunk| #[trigger]
        came(run.moves, c) && #[trigger] came(run.moves, d) && c.id@ == d.id@ ==> c.data@ == d.data@
    &&& forall|c: Chunk| #[trigger]
        came(run.moves, c) && run.stores[0].contains_key(c.id@) ==> verified_plaintext(
            run.states[0].key@,
            id_key,
            c.id@,
            run.stores[0][c.id@],
        ) == Some(c.data@)
}

/// The session's files, and its open one, are as the moves gave them.
proof fn lemma_files(run: BackupRun, i: int)
    requires
        run.valid(),
        0 <= i < run.states.len(),
    ensures
        run.states[i].files@.len() == closed_files(run.moves, i).len(),
        forall|f: int|
            #![trigger run.states[i].files@[f]]
            0 <= f < run.states[i].files@.len() ==> run.states[i].files@[f]@ == closed_files(
                run.moves,
                i,
            )[f].0,
        ids_view(run.states[i].open_chunks@) == piece_ids(open_pieces(run.moves, i)),
        run.states[i].open_bytes == total_len(piece_bytes(open_pieces(run.moves, i))),
        forall|k: int|
            #![trigger open_pieces(run.moves, i)[k]]
            0 <= k < open_pieces(run.moves, i).len() ==> came(
                run.moves,
                open_pieces(run.moves, i)[k],
            ),
        forall|f: int, k: int|
            #![trigger closed_files(run.moves, i)[f].1[k]]
            0 <= f < closed_files(run.moves, i).len() && 0 <= k < closed_files(
                run.moves,
                i,
            )[f].1.len() ==> came(run.moves, closed_files(run.moves, i)[f].1[k]),
        forall|f: int|
            #![trigger closed_files(run.moves, i)[f]]
            0 <= f < closed_files(run.moves, i).len() ==> {
                let c = closed_files(run.moves, i)[f];
                &&& c.0.chunks == piece_ids(c.1)
                &&& c.0.size == total_len(piece_bytes(c.1))
            },
    decreases i,
{
    let moves = run.moves;
    if i == 0 {
        assert(ids_view(run.states[0].open_chunks@) =~= piece_ids(open_pieces(moves, 0)));
        assert(piece_bytes(open_pieces(moves, 0)) =~= Seq::empty());
    } else {
        lemma_files(run, i - 1);
        let (a, b) = (run.states[i - 1], run.states[i]);
        let m = moves[i - 1];
        assert(moved(a, run.stores[i - 1], m, b, run.stores[i]));
        let (op, oq) = (open_pieces(moves, i - 1), open_pieces(moves, i));
        let (ca, cb) = (closed_files(moves, i - 1), closed_files(moves, i));
        match m {
            BackupMove::Piece(chunk) => {
                assert(oq =~= op.push(chunk));
                assert(ids_view(a.open_chunks@).len() == piece_ids(op).len());
                assert(ids_view(b.open_chunks@) =~= ids_view(a.open_chunks@).push(chunk.id@));
                assert(piece_ids(oq) =~= piece_ids(op).push(chunk.id@));
                assert(piece_bytes(oq).drop_last() =~= piece_bytes(op));
                assert(piece_bytes(oq).last() == chunk.data@);
                assert(came(moves, chunk));
                assert forall|k: int| #![trigger oq[k]] 0 <= k < oq.len() implies came(
                    moves,
                    oq[k],
                ) by {
                    if k < op.len() {
                        assert(oq[k] == op[k]);
                    }
                }
            },
            BackupMove::End { path, mtime_secs, mtime_nanos, mode } => {
                assert(cb.drop_last() =~= ca);
                assert(ids_view(b.open_chunks@) =~= piece_ids(oq));
                assert(piece_bytes(oq) =~= Seq::empty());
                assert forall|f: int|
                    #![trigger b.files@[f]]
                    0 <= f < b.files@.len() implies b.files@[f]@ == cb[f].0 by {
                    if f < a.files@.len() {
                        assert(b.files@.drop_last()[f] == b.files@[f]);
                        assert(a.files@[f]@ == ca[f].0);
                        assert(cb[f] == ca[f]);
                    } else {
                        assert(b.files@.last() == b.files@[f]);
                        assert(b.files@[f]@ == cb[f].0);
                    }
                }
                assert forall|f: int, k: int|
                    #![trigger cb[f].1[k]]
                    0 <= f < cb.len() && 0 <= k < cb[f].1.len() implies came(moves, cb[f].1[k]) by {
                    if f < ca.len() {
                        assert(cb[f] == ca[f]);
                        assert(came(moves, ca[f].1[k]));
                    } else {
                        assert(cb[f].1 == op);
                        assert(came(moves, op[k]));
                    }
                }
                assert forall|f: int| #![trigger cb[f]] 0 <= f < cb.len() implies {
                    &&& cb[f].0.chunks == piece_ids(cb[f].1)
                    &&& cb[f].0.size == total_len(piece_bytes(cb[f].1))
                } by {
                    if f < ca.len() {
                        assert(cb[f] == ca[f]);
                    }
                }
            },
            BackupMove::Round { missing, nonces, blobs } => {},
        }
    }
}

/// What waits came as it waits, and what is stored of what came reads back.
proof fn lemma_stored_reads_back(run: BackupRun, id_key: Seq<u8>, i: int)
    requires
        run.valid(),
        identities_sound(run, id_key),
        0 <= i < run.states.len(),
    ensures
        forall|k: int|
            #![trigger run.states[i].pending@[k]]
            0 <= k < run.states[i].pending@.len() ==> waits_as_it_came(
                run.moves,
                run.states[i].pending@[k],
            ),
        forall|c: Chunk| #[trigger]
            came(run.moves, c) && run.stores[i].contains_key(c.id@) ==> verified_plaintext(
                run.states[0].key@,
                id_key,
                c.id@,
                run.stores[i][c.id@],
            ) == Some(c.data@),
    decreases i,
{
    if i > 0 {
        lemma_stored_reads_back(run, id_key, i - 1);
        let (a, b) = (run.states[i - 1], run.states[i]);
        let (sa, sb) = (run.stores[i - 1], run.stores[i]);
        let m = run.moves[i - 1];
        assert(moved(a, sa, m, b, sb));
        match m {
            BackupMove::Piece(chunk) => {
                assert(came(run.moves, chunk));
                assert forall|k: int|
                    #![trigger b.pending@[k]]
                    0 <= k < b.pending@.len() implies waits_as_it_came(
                    run.moves,
                    b.pending@[k],
                ) by {
                    if k < a.pending@.len() {
                        assert(b.pending@[k] == a.pending@[k]);
                    }
                }
            },
            BackupMove::End { .. } => {
                assert forall|k: int|
                    #![trigger b.pending@[k]]
                    0 <= k < b.pending@.len() implies waits_as_it_came(
                    run.moves,
                    b.pending@[k],
                ) by {
                    assert(b.pending@[k] == a.pending@[k]);
                }
            },
            BackupMove::Round { missing, nonces, blobs } => {
                lemma_wf(run, i - 1);
                let p = a.pending@;
                let picks = to_ship(p, missing, p.len() as int);
                let outs = choose|outs: Seq<Seq<u8>>|
                    blobs_carry(blobs, p, picks, a.key@, nonces, outs)
                        && #[trigger] encoded_run(
                        plaintexts(p, picks),
                        a.phase,
                        a.policy,
                        a.report.compression,
                        outs,
                        picks.len(),
                        b.report.compression,
                    );
                assert forall|c: Chunk| #[trigger]
                    came(run.moves, c) && sb.contains_key(c.id@) implies verified_plaintext(
                    run.states[0].key@,
                    id_key,
                    c.id@,
                    sb[c.id@],
                ) == Some(c.data@) by {
                    let x = c.id@;
                    lemma_uploaded(sa, blobs, x);
                    if sa.contains_key(x) {
                        assert forall|k: int|
                            #![trigger blobs[k]]
                            0 <= k < blobs.len() implies blobs[k].chunk_id@ != x by {
                            lemma_round_blobs(a, sa, m, b, sb, k);
                        }
                    } else {
                        let k = choose|k: int|
                            #![trigger blobs[k]]
                            0 <= k < blobs.len() && blobs[k].chunk_id@ == x && sb[x]
                                == blobs[k].data@;
                        lemma_round_blobs(a, sa, m, b, sb, k);
                        let w = p[picks[k]];
                        assert(waits_as_it_came(run.moves, w));
                        let d = choose|d: Chunk| #[trigger]
                            came(run.moves, d) && d.id == w.0 && d.data@ == w.1@;
                        law_shipped_chunks_verify(
                            blobs,
                            p,
                            picks,
                            a.key@,
                            id_key,
                            nonces,
                            outs,
                            k,
                        );
                    }
                }
            },
        }
    }
}

/// Whether a waiting chunk is one that came.
pub open spec fn waits_as_it_came(moves: Seq<BackupMove>, w: (ChunkId, Vec<u8>)) -> bool {
    exists|d: Chunk| #[trigger] came(moves, d) && d.id == w.0 && d.data@ == w.1@
}

/// What a daemon streams for a file: the blob of each of its chunks.
pub open spec fn streamed(store: Store, ids: Seq<Seq<u8>>) -> Seq<Seq<u8>> {
    Seq::new(ids.len(), |k: int| store[ids[k]])
}

proof fn lemma_pieces_restore(key: Seq<u8>, id_key: Seq<u8>, store: Store, pieces: Seq<Chunk>)
    requires
        forall|k: int|
            #![trigger pieces[k]]
            0 <= k < pieces.len() ==> verified_plaintext(
                key,
                id_key,
                pieces[k].id@,
                store[pieces[k].id@],
            ) == Some(pieces[k].data@),
    ensures
        restored_bytes(key, id_key, piece_ids(pieces), streamed(store, piece_ids(pieces))) == Some(
            pieces_joined(piece_bytes(pieces)),
        ),
        pieces_joined(piece_bytes(pieces)).len() == total_len(piece_bytes(pieces)),
    decreases pieces.len(),
{
    let ids = piece_ids(pieces);
    let bytes = piece_bytes(pieces);
    if pieces.len() > 0 {
        let fewer = pieces.drop_last();
        assert forall|k: int| #![trigger fewer[k]] 0 <= k < fewer.len() implies verified_plaintext(
            key,
            id_key,
            fewer[k].id@,
            store[fewer[k].id@],
        ) == Some(fewer[k].data@) by {
            assert(fewer[k] == pieces[k]);
        }
        lemma_pieces_restore(key, id_key, store, fewer);
        assert(ids.drop_last() =~= piece_ids(fewer));
        assert(streamed(store, ids).drop_last() =~= streamed(store, piece_ids(fewer)));
        assert(bytes.drop_last() =~= piece_bytes(fewer));
        assert(pieces[pieces.len() - 1] == pieces.last());
    }
}

/// A restore gives back the tree that was backed up. After a backup that is
/// done, with a daemon that lost nothing since, the manifest has each file as it
/// was given, with its path, its size, its modification time and its metadata
/// word; every blob that the daemon streams for it verifies; and what they
/// restore is the file's pieces, byte by byte.
///
/// That no two contents share an identity, and that what the daemon held before
/// reads back, is asked for in `identities_sound`.
pub proof fn law_restore_returns_the_tree(
    run: BackupRun,
    id_key: Seq<u8>,
    later: Store,
    f: int,
    k: int,
)
    requires
        run.done(),
        identities_sound(run, id_key),
        forall|x: Seq<u8>| #[trigger]
            run.store().contains_key(x) ==> later.contains_key(x) && later[x] == run.store()[x],
        0 <= f < run.end().files@.len(),
    ensures
        run.end().files@.len() == closed_files(run.moves, run.moves.len() as int).len(),
        ({
            let (file, pieces) = closed_files(run.moves, run.moves.len() as int)[f];
            let blobs = streamed(later, file.chunks);
            &&& run.end().files@[f]@ == file
            &&& restored_bytes(run.end().key@, id_key, file.chunks, blobs) == Some(
                pieces_joined(piece_bytes(pieces)),
            )
            &&& file.size == pieces_joined(piece_bytes(pieces)).len()
            &&& 0 <= k < file.chunks.len() ==> later.contains_key(file.chunks[k])
                && verified_plaintext(run.end().key@, id_key, file.chunks[k], blobs[k]) == Some(
                pieces[k].data@,
            )
        }),
{
    let n = run.moves.len() as int;
    lemma_wf(run, n);
    lemma_files(run, n);
    lemma_stored_reads_back(run, id_key, n);
    let (file, pieces) = closed_files(run.moves, n)[f];
    assert(run.end().files@[f]@ == file);
    assert forall|j: int| #![trigger pieces[j]] 0 <= j < pieces.len() implies later.contains_key(
        pieces[j].id@,
    ) && verified_plaintext(run.end().key@, id_key, pieces[j].id@, later[pieces[j].id@]) == Some(
        pieces[j].data@,
    ) by {
        assert(came(run.moves, closed_files(run.moves, n)[f].1[j]));
        let x = pieces[j].id@;
        assert(file.chunks[j] == x);
        lemma_ref_of_file(run.end().files@, f, j);
        let r = choose|r: int|
            0 <= r < file_refs(run.end().files@).len() && #[trigger] file_refs(
                run.end().files@,
            )[r] == x;
        law_backup_leaves_every_chunk_stored(run, r);
    }
    lemma_pieces_restore(run.end().key@, id_key, later, pieces);
    if 0 <= k < file.chunks.len() {
        let w = pieces[k];
        assert(file.chunks[k] == w.id@);
    }
}

proof fn lemma_ref_of_file(files: Seq<FileEntry>, f: int, j: int)
    requires
        0 <= f < files.len(),
        0 <= j < files[f]@.chunks.len(),
    ensures
        exists|r: int|
            0 <= r < file_refs(files).len() && #[trigger] file_refs(files)[r]
                == files[f]@.chunks[j],
    decreases files.len(),
{
    let before = file_refs(files.drop_last());
    let last = ids_view(files.last().chunks@);
    let x = files[f]@.chunks[j];
    if f == files.len() - 1 {
        assert(file_refs(files)[before.len() + j] == x);
    } else {
        assert(files.drop_last()[f] == files[f]);
        lemma_ref_of_file(files.drop_last(), f, j);
        let r = choose|r: int| 0 <= r < before.len() && #[trigger] before[r] == x;
        assert(file_refs(files)[r] == x);
    }
}

/// Whether a file was restored and counted.
pub open spec fn file_counted(a: RestoreReport, file: FileModel, b: RestoreReport) -> bool {
    b == (RestoreReport {
        files: capped(a.files + 1),
        bytes: capped(a.bytes + file.size),
        chunks_fetched: capped(a.chunks_fetched + file.chunks.len()),
        ..a
    })
}

/// Whether file `f` was restored and counted between two ledgers.
pub open spec fn counted_at(files: Seq<FileEntry>, reports: Seq<RestoreReport>, f: int) -> bool {
    file_counted(reports[f], files[f]@, reports[f + 1])
}

/// A file whose blobs were all taken, and which was then counted with its size,
/// is counted once, with its bytes and its chunk references.
pub proof fn law_restored_file_is_counted(
    key: Seq<u8>,
    id_key: Seq<u8>,
    file: FileModel,
    blobs: Seq<Seq<u8>>,
    handed: Seq<Seq<u8>>,
    states: Seq<(FileRestore, RestoreReport)>,
    counted: RestoreReport,
)
    requires
        blobs_taken(key, id_key, file.chunks, blobs, handed, states),
        counted == (RestoreReport {
            files: capped(states.last().1.files + 1),
            bytes: capped(states.last().1.bytes + file.size),
            ..states.last().1
        }),
    ensures
        file_counted(states[0].1, file, counted),
{
    law_steps_hand_out_the_file(key, id_key, file.chunks, blobs, handed, states);
}

/// Restoring every file of a backup that is done counts what the backup
/// counted: its files, its bytes and its chunk references.
pub proof fn law_restore_counts_what_was_backed_up(
    run: BackupRun,
    snapshot_id: SnapshotId,
    reports: Seq<RestoreReport>,
)
    requires
        run.done(),
        reports.len() == run.end().files@.len() + 1,
        reports[0] == (RestoreReport { snapshot_id, files: 0, bytes: 0, chunks_fetched: 0 }),
        forall|f: int|
            0 <= f < run.end().files@.len() ==> #[trigger] counted_at(
                run.end().files@,
                reports,
                f,
            ),
    ensures
        reports.last() == (RestoreReport {
            snapshot_id,
            files: run.end().report.files,
            bytes: run.end().report.source_bytes,
            chunks_fetched: run.end().report.chunks_total,
        }),
{
    lemma_wf(run, run.moves.len() as int);
    let files = run.end().files@;
    lemma_counts(files, snapshot_id, reports, files.len() as int);
    assert(files.take(files.len() as int) =~= files);
}

proof fn lemma_counts(
    files: Seq<FileEntry>,
    snapshot_id: SnapshotId,
    reports: Seq<RestoreReport>,
    n: int,
)
    requires
        0 <= n <= files.len(),
        reports.len() == files.len() + 1,
        reports[0] == (RestoreReport { snapshot_id, files: 0, bytes: 0, chunks_fetched: 0 }),
        forall|f: int| 0 <= f < files.len() ==> #[trigger] counted_at(files, reports, f),
    ensures
        reports[n] == (RestoreReport {
            snapshot_id,
            files: capped(n),
            bytes: capped(size_sum(files.take(n))),
            chunks_fetched: capped(file_refs(files.take(n)).len() as int),
        }),
        size_sum(files.take(n)) >= 0,
    decreases n,
{
    if n == 0 {
        assert(files.take(0) =~= Seq::empty());
    } else {
        lemma_counts(files, snapshot_id, reports, n - 1);
        assert(files.take(n).drop_last() =~= files.take(n - 1));
        assert(counted_at(files, reports, n - 1));
    }
}

} // verus!
