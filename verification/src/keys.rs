//! Moving a backup set's keys between machines.
//!
//! Exporting seals both keys into a keyfile; importing opens one and decides
//! what becomes of the keys that are there already. No key is ever destroyed:
//! a different one is set aside under a numbered name first.
use vstd::prelude::*;

use crate::bytes::same_bytes;
use crate::chunking::ChunkIdKey;
use crate::crypto::{
    export_keyfile, import_error, import_keyfile, keyfile_header, keyfile_keys, kek_of,
    refusal_of, sealed_blob, CryptoError, DataKey, KdfParams, KEYFILE_LEN,
};
use crate::enroll::{CHUNK_ID_KEY_FILE, DATA_KEY_FILE};
use crate::text::{chars_of, decimal, push_decimal, string_of};

verus! {

/// How many numbered names are tried for a key that is set aside.
pub const MAX_KEY_BACKUPS: u32 = 1000;

/// Errors of exporting and importing.
#[derive(Debug, Clone, PartialEq, Eq)]
pub enum KeyError {
    /// The keyfile could not be made or opened.
    Crypto(CryptoError),
    /// A file stands where the keyfile is to go.
    OutputExists,
    /// Every numbered name is taken.
    NoBackupSlot,
    /// The passphrase is empty.
    EmptyPassphrase,
}

/// What is found of a key in the state directory.
pub enum KeyState {
    /// No file.
    Missing,
    /// A file that is not a key.
    Malformed,
    /// A key.
    Present([u8; 32]),
}

/// What importing does with the keys that are there.
#[derive(Debug, Clone, Copy, PartialEq, Eq, Structural)]
pub enum ImportOutcome {
    /// None is in the way: what is missing is written.
    Installed,
    /// They are the imported ones: nothing is written.
    AlreadyCurrent,
    /// One is in the way: it is set aside, then the imported one is written.
    Replaced,
}

/// Whether what is found is exactly the given key.
pub open spec fn is_key(state: KeyState, key: Seq<u8>) -> bool {
    state matches KeyState::Present(k) && k@ == key
}

/// Whether what is found is something other than the given key.
pub open spec fn in_the_way(state: KeyState, key: Seq<u8>) -> bool {
    !(state is Missing) && !is_key(state, key)
}

/// What importing keys does, given what is found.
pub open spec fn import_outcome(
    data: KeyState,
    chunk_id: KeyState,
    data_key: Seq<u8>,
    chunk_id_key: Seq<u8>,
) -> ImportOutcome {
    if in_the_way(data, data_key) || in_the_way(chunk_id, chunk_id_key) {
        ImportOutcome::Replaced
    } else if data is Missing || chunk_id is Missing {
        ImportOutcome::Installed
    } else {
        ImportOutcome::AlreadyCurrent
    }
}

fn holds(state: &KeyState, key: &[u8; 32]) -> (r: bool)
    ensures
        r == is_key(*state, key@),
{
    match state {
        KeyState::Present(k) => same_bytes(k, key),
        KeyState::Missing => false,
        KeyState::Malformed => false,
    }
}

fn missing(state: &KeyState) -> (r: bool)
    ensures
        r == (*state is Missing),
{
    match state {
        KeyState::Missing => true,
        KeyState::Malformed => false,
        KeyState::Present(_) => false,
    }
}

/// Opens a keyfile and decides what becomes of the keys that are there. A
/// keyfile that does not open changes nothing.
pub fn import_key(file: &[u8], passphrase: &[u8], data: &KeyState, chunk_id: &KeyState) -> (r:
    Result<(DataKey, ChunkIdKey, ImportOutcome), KeyError>)
    ensures
        match r {
            Ok((data_key, chunk_id_key, outcome)) => {
                &&& keyfile_keys(file@, passphrase@) == Some((data_key@, chunk_id_key@))
                &&& outcome == import_outcome(*data, *chunk_id, data_key@, chunk_id_key@)
            },
            Err(e) => {
                &&& keyfile_keys(file@, passphrase@) is None
                &&& e matches KeyError::Crypto(c) && import_error(file@, passphrase@, c)
            },
        },
{
    match import_keyfile(file, passphrase) {
        Err(e) => Err(KeyError::Crypto(e)),
        Ok((data_key, chunk_id_key)) => {
            let data_missing: bool = missing(data);
            let chunk_id_missing: bool = missing(chunk_id);
            let blocked: bool = (!data_missing && !holds(data, data_key.as_bytes())) || (
            !chunk_id_missing && !holds(chunk_id, chunk_id_key.as_bytes()));
            let outcome: ImportOutcome = if blocked {
                ImportOutcome::Replaced
            } else if data_missing || chunk_id_missing {
                ImportOutcome::Installed
            } else {
                ImportOutcome::AlreadyCurrent
            };
            Ok((data_key, chunk_id_key, outcome))
        },
    }
}

/// Seals both keys into a keyfile, unless a file stands where it is to go.
pub fn export_key(
    output_exists: bool,
    data_key: &DataKey,
    chunk_id_key: &ChunkIdKey,
    passphrase: &[u8],
    params: &KdfParams,
    salt: &[u8; 16],
    nonce: &[u8; 24],
) -> (r: Result<Vec<u8>, KeyError>)
    ensures
        match r {
            Ok(file) => {
                &&& !output_exists
                &&& refusal_of(passphrase@, *params) is None
                &&& file@ == keyfile_header(*params, salt@) + sealed_blob(
                    kek_of(passphrase@, salt@, *params),
                    nonce@,
                    keyfile_header(*params, salt@),
                    data_key@ + chunk_id_key@,
                )
                &&& file@.len() == KEYFILE_LEN
                &&& keyfile_keys(file@, passphrase@) == Some((data_key@, chunk_id_key@))
            },
            Err(KeyError::OutputExists) => output_exists,
            Err(KeyError::Crypto(e)) => {
                &&& !output_exists
                &&& e matches CryptoError::Kdf(m) && refusal_of(passphrase@, *params) == Some(m@)
            },
            Err(_) => false,
        },
{
    if output_exists {
        return Err(KeyError::OutputExists);
    }
    match export_keyfile(data_key, chunk_id_key, passphrase, params, salt, nonce) {
        Ok(file) => Ok(file),
        Err(e) => Err(KeyError::Crypto(e)),
    }
}

/// The name under which a key file is set aside.
pub open spec fn backup_name(base: Seq<char>, n: nat) -> Seq<char> {
    base + ".old-"@ + decimal(n)
}

/// The name under which a key file is set aside.
#[must_use]
pub fn backup_slot_name(base: &str, n: u32) -> (r: String)
    ensures
        r@ == backup_name(base@, n as nat),
{
    let mut out: String = base.to_owned();
    out.push_str(".old-");
    push_decimal(&mut out, n as u128);
    proof {
        assert(out@ =~= backup_name(base@, n as nat));
    }
    out
}

/// The first number from 1 on whose name is not taken, given which are.
pub fn first_free_slot(taken: &Vec<bool>) -> (r: Result<u32, KeyError>)
    requires
        taken@.len() == MAX_KEY_BACKUPS,
    ensures
        match r {
            Ok(n) => {
                &&& 1 <= n <= MAX_KEY_BACKUPS
                &&& !taken@[n - 1]
                &&& forall|k: int| #![trigger taken@[k]] 0 <= k < n - 1 ==> taken@[k]
            },
            Err(e) => {
                &&& e is NoBackupSlot
                &&& forall|k: int| #![trigger taken@[k]] 0 <= k < taken@.len() ==> taken@[k]
            },
        },
{
    let mut i: usize = 0;
    while i < taken.len()
        invariant
            i <= taken@.len(),
            taken@.len() == MAX_KEY_BACKUPS,
            forall|k: int| #![trigger taken@[k]] 0 <= k < i ==> taken@[k],
        decreases taken@.len() - i,
    {
        if !taken[i] {
            return Ok((i + 1) as u32);
        }
        i = i + 1;
    }
    Err(KeyError::NoBackupSlot)
}

/// What is to be done in the state directory.
#[derive(Debug, Clone, PartialEq, Eq)]
pub enum KeyAction {
    /// Rename a file.
    SetAside {
        /// Its name.
        file: String,
        /// Its new name.
        to: String,
    },
    /// Write a key.
    Write {
        /// The name of the file.
        file: String,
        /// The key.
        key: [u8; 32],
    },
}

/// What an action says.
pub enum ActionModel {
    /// Rename a file.
    SetAside {
        /// Its name.
        file: Seq<char>,
        /// Its new name.
        to: Seq<char>,
    },
    /// Write a key.
    Write {
        /// The name of the file.
        file: Seq<char>,
        /// The key.
        key: Seq<u8>,
    },
}

impl View for KeyAction {
    type V = ActionModel;

    open spec fn view(&self) -> ActionModel {
        match self {
            KeyAction::SetAside { file, to } => ActionModel::SetAside { file: file@, to: to@ },
            KeyAction::Write { file, key } => ActionModel::Write { file: file@, key: key@ },
        }
    }
}

/// What each action says.
pub open spec fn action_views(actions: Seq<KeyAction>) -> Seq<ActionModel> {
    Seq::new(actions.len(), |i: int| actions[i]@)
}

/// The index of the first name that is not taken, or the number of names.
pub open spec fn first_free(taken: Seq<bool>, from: int) -> int
    decreases taken.len() - from,
{
    if from >= taken.len() || !taken[from] {
        from
    } else {
        first_free(taken, from + 1)
    }
}

proof fn lemma_first_free(taken: Seq<bool>, from: int, at: int)
    requires
        0 <= from <= at <= taken.len(),
        forall|k: int| #![trigger taken[k]] from <= k < at ==> taken[k],
        at < taken.len() ==> !taken[at],
    ensures
        first_free(taken, from) == at,
    decreases at - from,
{
    if from < at {
        lemma_first_free(taken, from + 1, at);
    }
}

/// What bringing one key file to a key takes: nothing where it holds it, writing
/// it where there is no file, and setting what is there aside before that. There
/// is no way where every name for keys that are set aside is taken.
pub open spec fn file_actions(
    file: Seq<char>,
    key: Seq<u8>,
    state: KeyState,
    taken: Seq<bool>,
) -> Option<Seq<ActionModel>> {
    if is_key(state, key) {
        Some(Seq::empty())
    } else if state is Missing {
        Some(seq![ActionModel::Write { file, key }])
    } else if first_free(taken, 0) < taken.len() {
        Some(
            seq![
                ActionModel::SetAside {
                    file,
                    to: backup_name(file, (first_free(taken, 0) + 1) as nat),
                },
                ActionModel::Write { file, key },
            ],
        )
    } else {
        None
    }
}

fn plan_file(file: &str, key: &[u8; 32], state: &KeyState, taken: &Vec<bool>) -> (r: Result<
    Vec<KeyAction>,
    KeyError,
>)
    requires
        taken@.len() == MAX_KEY_BACKUPS,
    ensures
        match r {
            Ok(actions) => file_actions(file@, key@, *state, taken@) == Some(
                action_views(actions@),
            ),
            Err(e) => e is NoBackupSlot && file_actions(file@, key@, *state, taken@) is None,
        },
{
    let mut out: Vec<KeyAction> = Vec::new();
    if holds(state, key) {
        proof {
            assert(action_views(out@) =~= Seq::empty());
        }
        return Ok(out);
    }
    if !missing(state) {
        let n: u32 = match first_free_slot(taken) {
            Ok(n) => {
                proof {
                    lemma_first_free(taken@, 0, n - 1);
                }
                n
            },
            Err(e) => {
                proof {
                    lemma_first_free(taken@, 0, taken@.len() as int);
                }
                return Err(e);
            },
        };
        out.push(KeyAction::SetAside { file: file.to_owned(), to: backup_slot_name(file, n) });
    }
    out.push(KeyAction::Write { file: file.to_owned(), key: *key });
    proof {
        let expected = file_actions(file@, key@, *state, taken@)->0;
        assert(action_views(out@) =~= expected);
    }
    Ok(out)
}

/// What importing keys takes in the state directory, given what is found there
/// and which names for keys that are set aside are taken: the data key first,
/// then the chunk-identity key.
pub fn import_actions(
    data_key: &DataKey,
    chunk_id_key: &ChunkIdKey,
    data: &KeyState,
    chunk_id: &KeyState,
    data_taken: &Vec<bool>,
    chunk_id_taken: &Vec<bool>,
) -> (r: Result<Vec<KeyAction>, KeyError>)
    requires
        data_taken@.len() == MAX_KEY_BACKUPS,
        chunk_id_taken@.len() == MAX_KEY_BACKUPS,
    ensures
        match (
            file_actions(DATA_KEY_FILE@, data_key@, *data, data_taken@),
            file_actions(CHUNK_ID_KEY_FILE@, chunk_id_key@, *chunk_id, chunk_id_taken@),
        ) {
            (Some(a), Some(b)) => r matches Ok(actions) && action_views(actions@) == a + b,
            _ => r matches Err(e) && e is NoBackupSlot,
        },
{
    let mut out: Vec<KeyAction> = match plan_file(
        DATA_KEY_FILE,
        data_key.as_bytes(),
        data,
        data_taken,
    ) {
        Ok(actions) => actions,
        Err(e) => {
            return Err(e);
        },
    };
    let mut more: Vec<KeyAction> = match plan_file(
        CHUNK_ID_KEY_FILE,
        chunk_id_key.as_bytes(),
        chunk_id,
        chunk_id_taken,
    ) {
        Ok(actions) => actions,
        Err(e) => {
            return Err(e);
        },
    };
    let ghost (a, b) = (out@, more@);
    out.append(&mut more);
    proof {
        assert(action_views(out@) =~= action_views(a) + action_views(b));
    }
    Ok(out)
}

/// A directory: the contents of files by name.
pub type Directory = Map<Seq<char>, Seq<u8>>;

/// The directory after an action.
pub open spec fn acted(dir: Directory, action: ActionModel) -> Directory {
    match action {
        ActionModel::SetAside { file, to } => dir.remove(file).insert(to, dir[file]),
        ActionModel::Write { file, key } => dir.insert(file, key),
    }
}

/// The directory after actions, one after the other.
pub open spec fn all_acted(dir: Directory, actions: Seq<ActionModel>) -> Directory
    decreases actions.len(),
{
    if actions.len() == 0 {
        dir
    } else {
        acted(all_acted(dir, actions.drop_last()), actions.last())
    }
}

/// Whether what is found of a key is what the directory holds.
pub open spec fn found_in(dir: Directory, file: Seq<char>, state: KeyState) -> bool {
    match state {
        KeyState::Missing => !dir.contains_key(file),
        KeyState::Malformed => dir.contains_key(file) && dir[file].len() != 32,
        KeyState::Present(k) => dir.contains_key(file) && dir[file] == k@,
    }
}

/// Which of the names for keys that are set aside the directory has.
pub open spec fn names_taken(dir: Directory, file: Seq<char>) -> Seq<bool> {
    Seq::new(MAX_KEY_BACKUPS as nat, |k: int| dir.contains_key(backup_name(file, (k + 1) as nat)))
}

proof fn lemma_first_free_is_free(taken: Seq<bool>, from: int)
    requires
        0 <= from <= taken.len(),
    ensures
        from <= first_free(taken, from) <= taken.len(),
        first_free(taken, from) < taken.len() ==> !taken[first_free(taken, from)],
        forall|k: int| #![trigger taken[k]] from <= k < first_free(taken, from) ==> taken[k],
    decreases taken.len() - from,
{
    if from < taken.len() && taken[from] {
        lemma_first_free_is_free(taken, from + 1);
    }
}

/// Bringing one key file to a key: it holds the key afterwards, what it held
/// before, if that was another, stands under the least free name, and no other
/// file has changed. Once it holds the key there is nothing to do.
pub proof fn law_import_keeps_every_key(
    dir: Directory,
    file: Seq<char>,
    key: [u8; 32],
    state: KeyState,
)
    requires
        found_in(dir, file, state),
        file_actions(file, key@, state, names_taken(dir, file)) is Some,
    ensures
        ({
            let taken = names_taken(dir, file);
            let after = all_acted(dir, file_actions(file, key@, state, taken)->0);
            let aside = backup_name(file, (first_free(taken, 0) + 1) as nat);
            &&& after.contains_key(file) && after[file] == key@
            &&& if is_key(state, key@) {
                after == dir
            } else if state is Missing {
                after == dir.insert(file, key@)
            } else {
                &&& !dir.contains_key(aside)
                &&& forall|n: nat|
                    1 <= n <= first_free(taken, 0) ==> dir.contains_key(
                        #[trigger] backup_name(file, n),
                    )
                &&& after == dir.insert(aside, dir[file]).insert(file, key@)
            }
            &&& found_in(after, file, KeyState::Present(key))
            &&& file_actions(file, key@, KeyState::Present(key), names_taken(after, file)) == Some(
                Seq::<ActionModel>::empty(),
            )
        }),
{
    let taken = names_taken(dir, file);
    let actions = file_actions(file, key@, state, taken)->0;
    let aside = backup_name(file, (first_free(taken, 0) + 1) as nat);
    lemma_first_free_is_free(taken, 0);
    assert forall|n: nat| 1 <= n <= first_free(taken, 0) implies dir.contains_key(
        #[trigger] backup_name(file, n),
    ) by {
        assert(taken[n - 1]);
    }
    reveal_strlit(".old-");
    assert(aside.len() > file.len());
    if !is_key(state, key@) {
        if state is Missing {
            assert(actions.drop_last() =~= Seq::empty());
            assert(all_acted(dir, actions.drop_last()) == dir);
        } else {
            assert(actions.drop_last() =~= seq![
                ActionModel::SetAside { file, to: aside },
            ]);
            let first = actions.drop_last();
            assert(first.drop_last() =~= Seq::empty());
            assert(all_acted(dir, first.drop_last()) == dir);
            assert(all_acted(dir, first) == acted(dir, first.last()));
            assert(all_acted(dir, actions) == acted(acted(dir, first.last()), actions.last()));
            assert(!taken[first_free(taken, 0)]);
            assert(all_acted(dir, actions) =~= dir.insert(aside, dir[file]).insert(file, key@));
        }
    }
}

proof fn lemma_acted_in_two(dir: Directory, a: Seq<ActionModel>, b: Seq<ActionModel>)
    ensures
        all_acted(dir, a + b) == all_acted(all_acted(dir, a), b),
    decreases b.len(),
{
    if b.len() == 0 {
        assert(a + b =~= a);
    } else {
        assert((a + b).drop_last() =~= a + b.drop_last());
        lemma_acted_in_two(dir, a, b.drop_last());
    }
}

/// Importing a keyfile leaves both of its keys in the state directory, destroys
/// no key that was there, and touches no other file. Importing it again finds
/// both and does nothing.
pub proof fn law_import_installs_both_keys(
    dir: Directory,
    data_key: [u8; 32],
    chunk_id_key: [u8; 32],
    data: KeyState,
    chunk_id: KeyState,
    other: Seq<char>,
)
    requires
        found_in(dir, DATA_KEY_FILE@, data),
        found_in(dir, CHUNK_ID_KEY_FILE@, chunk_id),
        file_actions(DATA_KEY_FILE@, data_key@, data, names_taken(dir, DATA_KEY_FILE@)) is Some,
        file_actions(
            CHUNK_ID_KEY_FILE@,
            chunk_id_key@,
            chunk_id,
            names_taken(dir, CHUNK_ID_KEY_FILE@),
        ) is Some,
        other != DATA_KEY_FILE@,
        other != CHUNK_ID_KEY_FILE@,
    ensures
        ({
            let actions = file_actions(
                DATA_KEY_FILE@,
                data_key@,
                data,
                names_taken(dir, DATA_KEY_FILE@),
            )->0 + file_actions(
                CHUNK_ID_KEY_FILE@,
                chunk_id_key@,
                chunk_id,
                names_taken(dir, CHUNK_ID_KEY_FILE@),
            )->0;
            let after = all_acted(dir, actions);
            &&& found_in(after, DATA_KEY_FILE@, KeyState::Present(data_key))
            &&& found_in(after, CHUNK_ID_KEY_FILE@, KeyState::Present(chunk_id_key))
            &&& dir.contains_key(other) ==> after.contains_key(other) && after[other] == dir[other]
            &&& !(data is Missing) && !is_key(data, data_key@) ==> {
                let aside = backup_name(
                    DATA_KEY_FILE@,
                    (first_free(names_taken(dir, DATA_KEY_FILE@), 0) + 1) as nat,
                );
                after.contains_key(aside) && after[aside] == dir[DATA_KEY_FILE@]
            }
            &&& !(chunk_id is Missing) && !is_key(chunk_id, chunk_id_key@) ==> {
                let aside = backup_name(
                    CHUNK_ID_KEY_FILE@,
                    (first_free(names_taken(dir, CHUNK_ID_KEY_FILE@), 0) + 1) as nat,
                );
                after.contains_key(aside) && after[aside] == dir[CHUNK_ID_KEY_FILE@]
            }
        }),
{
    reveal_strlit("data.key");
    reveal_strlit("chunk-id.key");
    reveal_strlit(".old-");
    let (d, c) = (DATA_KEY_FILE@, CHUNK_ID_KEY_FILE@);
    let (dt, ct) = (names_taken(dir, d), names_taken(dir, c));
    let a = file_actions(d, data_key@, data, dt)->0;
    let b = file_actions(c, chunk_id_key@, chunk_id, ct)->0;
    let d_aside = backup_name(d, (first_free(dt, 0) + 1) as nat);
    let c_aside = backup_name(c, (first_free(ct, 0) + 1) as nat);
    assert(d[0] == 'd' && c[0] == 'c');
    assert(d_aside[0] == 'd' && c_aside[0] == 'c');
    assert(d_aside.len() > d.len() && c_aside.len() > c.len());
    let mid = all_acted(dir, a);
    law_import_keeps_every_key(dir, d, data_key, data);
    assert forall|n: nat| mid.contains_key(#[trigger] backup_name(c, n)) == dir.contains_key(
        backup_name(c, n),
    ) by {
        assert(backup_name(c, n)[0] == 'c');
    }
    assert(names_taken(mid, c) =~= ct);
    law_import_keeps_every_key(mid, c, chunk_id_key, chunk_id);
    lemma_acted_in_two(dir, a, b);
}

/// Importing what was exported installs the same keys, and importing it again
/// changes nothing.
pub proof fn law_import_twice_is_a_no_op(
    data_key: [u8; 32],
    chunk_id_key: [u8; 32],
    data: KeyState,
    chunk_id: KeyState,
)
    ensures
        import_outcome(
            KeyState::Present(data_key),
            KeyState::Present(chunk_id_key),
            data_key@,
            chunk_id_key@,
        ) == ImportOutcome::AlreadyCurrent,
        import_outcome(KeyState::Missing, KeyState::Missing, data_key@, chunk_id_key@)
            == ImportOutcome::Installed,
        in_the_way(data, data_key@) ==> import_outcome(data, chunk_id, data_key@, chunk_id_key@)
            == ImportOutcome::Replaced,
{
}

/// The outcome tells what is done: keys are replaced just if a file is set
/// aside, they are current just if nothing is done, and otherwise keys are
/// written with no file set aside.
pub proof fn law_outcome_tells_the_actions(
    data_key: Seq<u8>,
    chunk_id_key: Seq<u8>,
    data: KeyState,
    chunk_id: KeyState,
    data_taken: Seq<bool>,
    chunk_id_taken: Seq<bool>,
)
    requires
        file_actions(DATA_KEY_FILE@, data_key, data, data_taken) is Some,
        file_actions(CHUNK_ID_KEY_FILE@, chunk_id_key, chunk_id, chunk_id_taken) is Some,
    ensures
        ({
            let actions = file_actions(DATA_KEY_FILE@, data_key, data, data_taken)->0
                + file_actions(CHUNK_ID_KEY_FILE@, chunk_id_key, chunk_id, chunk_id_taken)->0;
            let outcome = import_outcome(data, chunk_id, data_key, chunk_id_key);
            &&& outcome is Replaced <==> exists|i: int|
                0 <= i < actions.len() && (#[trigger] actions[i]) is SetAside
            &&& outcome is AlreadyCurrent <==> actions.len() == 0
            &&& outcome is Installed <==> actions.len() > 0 && forall|i: int|
                0 <= i < actions.len() ==> (#[trigger] actions[i]) is Write
        }),
{
    let a = file_actions(DATA_KEY_FILE@, data_key, data, data_taken)->0;
    let b = file_actions(CHUNK_ID_KEY_FILE@, chunk_id_key, chunk_id, chunk_id_taken)->0;
    let actions = a + b;
    if in_the_way(data, data_key) {
        assert(actions[0] is SetAside);
    } else if in_the_way(chunk_id, chunk_id_key) {
        assert(actions[a.len() as int] == b[0]);
        assert(actions[a.len() as int] is SetAside);
    }
}

/// Different numbers give different names, so setting a key aside never
/// overwrites one that was set aside before.
pub proof fn law_backup_names_differ(base: Seq<char>, a: nat, b: nat)
    requires
        backup_name(base, a) == backup_name(base, b),
    ensures
        a == b,
{
    let p = base + ".old-"@;
    assert(backup_name(base, a).skip(p.len() as int) =~= decimal(a));
    assert(backup_name(base, b).skip(p.len() as int) =~= decimal(b));
    crate::text::law_decimal_parses_back(a);
    crate::text::law_decimal_parses_back(b);
}

/// The index of the first line feed from `from` on, or the length.
pub open spec fn line_end(s: Seq<char>, from: int) -> int
    decreases s.len() - from,
{
    if from >= s.len() {
        s.len() as int
    } else if s[from] == '\n' {
        from
    } else {
        line_end(s, from + 1)
    }
}

/// A text's first line, without its line feed and a carriage return before
/// that.
pub open spec fn first_line(s: Seq<char>) -> Seq<char> {
    let end = line_end(s, 0);
    if end < s.len() && end > 0 && s[end - 1] == '\r' {
        s.take(end - 1)
    } else {
        s.take(end)
    }
}

/// The index behind the last character before `end` that is neither a line
/// feed nor a carriage return.
pub open spec fn typed_end(s: Seq<char>, end: int) -> int
    decreases end,
{
    if end > 0 && (s[end - 1] == '\r' || s[end - 1] == '\n') {
        typed_end(s, end - 1)
    } else {
        end
    }
}

/// The passphrase in a file: its first line, which may not be empty.
pub fn passphrase_in_file(contents: &str) -> (r: Result<String, KeyError>)
    ensures
        match r {
            Ok(p) => p@ == first_line(contents@) && p@.len() > 0,
            Err(e) => first_line(contents@).len() == 0 && e is EmptyPassphrase,
        },
{
    let chars: Vec<char> = chars_of(contents);
    let mut end: usize = 0;
    while end < chars.len() && chars[end] != '\n'
        invariant
            end <= chars@.len(),
            line_end(chars@, 0) == line_end(chars@, end as int),
        decreases chars@.len() - end,
    {
        end = end + 1;
    }
    let len: usize = if end < chars.len() && end > 0 && chars[end - 1] == '\r' {
        end - 1
    } else {
        end
    };
    if len == 0 {
        return Err(KeyError::EmptyPassphrase);
    }
    let out: String = string_of(&chars, 0, len);
    proof {
        assert(out@ =~= first_line(contents@));
    }
    Ok(out)
}

/// The passphrase in a line that was typed: without the end of the line, and
/// not empty.
pub fn passphrase_typed(line: &str) -> (r: Result<String, KeyError>)
    ensures
        match r {
            Ok(p) => p@ == line@.take(typed_end(line@, line@.len() as int)) && p@.len() > 0,
            Err(e) => typed_end(line@, line@.len() as int) == 0 && e is EmptyPassphrase,
        },
{
    let chars: Vec<char> = chars_of(line);
    let mut end: usize = chars.len();
    while end > 0 && (chars[end - 1] == '\r' || chars[end - 1] == '\n')
        invariant
            end <= chars@.len(),
            typed_end(chars@, chars@.len() as int) == typed_end(chars@, end as int),
        decreases end,
    {
        end = end - 1;
    }
    if end == 0 {
        return Err(KeyError::EmptyPassphrase);
    }
    let out: String = string_of(&chars, 0, end);
    proof {
        assert(out@ =~= line@.take(end as int));
    }
    Ok(out)
}

/// A key file is set aside under its own name, `.old-` and the number.
pub proof fn law_backup_names_say_which(base: Seq<char>, n: nat)
    ensures
        backup_name(base, n).take(base.len() as int) == base,
        backup_name(base, n).skip((base.len() + 5) as int) == decimal(n),
        backup_name(base, n).subrange(base.len() as int, (base.len() + 5) as int) == seq![
            '.',
            'o',
            'l',
            'd',
            '-',
        ],
{
    reveal_strlit(".old-");
    let name = backup_name(base, n);
    assert(name.take(base.len() as int) =~= base);
    assert(name.skip((base.len() + 5) as int) =~= decimal(n));
    assert(name.subrange(base.len() as int, (base.len() + 5) as int) =~= seq![
        '.',
        'o',
        'l',
        'd',
        '-',
    ]);
}

proof fn lemma_line_end(s: Seq<char>, from: int, at: int)
    requires
        0 <= from <= at <= s.len(),
        forall|i: int| from <= i < at ==> #[trigger] s[i] != '\n',
        at < s.len() ==> s[at] == '\n',
    ensures
        line_end(s, from) == at,
    decreases at - from,
{
    if from < at {
        lemma_line_end(s, from + 1, at);
    }
}

/// The passphrase in a file is what stands in front of the first line feed, or
/// of a carriage return with a line feed; a file without one is all passphrase.
pub proof fn law_first_line(line: Seq<char>, rest: Seq<char>)
    requires
        !line.contains('\n'),
    ensures
        line.len() == 0 || line.last() != '\r' ==> first_line(line + seq!['\n'] + rest) == line,
        first_line(line + seq!['\r', '\n'] + rest) == line,
        first_line(line) == line,
{
    let n = line.len() as int;
    let a = line + seq!['\n'] + rest;
    let b = line + seq!['\r', '\n'] + rest;
    assert forall|i: int| 0 <= i < n implies #[trigger] line[i] != '\n' by {
        assert(line.contains(line[i]));
    }
    assert forall|i: int| 0 <= i < n implies #[trigger] a[i] != '\n' by {
        assert(a[i] == line[i]);
    }
    assert forall|i: int| 0 <= i < n + 1 implies #[trigger] b[i] != '\n' by {
        if i < n {
            assert(b[i] == line[i]);
        }
    }
    lemma_line_end(a, 0, n);
    lemma_line_end(b, 0, n + 1);
    lemma_line_end(line, 0, n);
    if n > 0 {
        assert(a[n - 1] == line.last());
    }
    assert(a.take(n) =~= line);
    assert(b.take(n) =~= line);
    assert(line.take(n) =~= line);
}

/// A typed passphrase is the line without the line feeds and carriage returns at
/// its end, all of them and nothing else.
pub proof fn law_typed_line(s: Seq<char>, end: int)
    requires
        0 <= end <= s.len(),
    ensures
        0 <= typed_end(s, end) <= end,
        forall|i: int|
            typed_end(s, end) <= i < end ==> #[trigger] s[i] == '\r' || s[i] == '\n',
        typed_end(s, end) > 0 ==> s[typed_end(s, end) - 1] != '\r' && s[typed_end(s, end) - 1]
            != '\n',
    decreases end,
{
    if end > 0 && (s[end - 1] == '\r' || s[end - 1] == '\n') {
        law_typed_line(s, end - 1);
    }
}

/// A key file is set aside under the least number whose name is not taken.
pub proof fn law_least_free_name(taken: Seq<bool>)
    ensures
        ({
            let at = first_free(taken, 0);
            &&& 0 <= at <= taken.len()
            &&& at < taken.len() ==> !taken[at]
            &&& forall|k: int| #![trigger taken[k]] 0 <= k < at ==> taken[k]
        }),
{
    lemma_first_free_is_free(taken, 0);
}

/// A file that holds the key is left alone; where there is none it is written;
/// anything else is first renamed, never overwritten, and where no name is free
/// nothing is done.
pub proof fn law_file_actions(
    file: Seq<char>,
    key: Seq<u8>,
    state: KeyState,
    taken: Seq<bool>,
)
    ensures
        match (state, file_actions(file, key, state, taken)) {
            (KeyState::Missing, Some(actions)) => actions == seq![ActionModel::Write { file, key }],
            (KeyState::Missing, None) => false,
            (KeyState::Present(k), Some(actions)) if k@ == key => actions.len() == 0,
            (KeyState::Present(k), None) if k@ == key => false,
            (_, Some(actions)) => {
                &&& actions.len() == 2
                &&& actions[0] == (ActionModel::SetAside {
                    file,
                    to: backup_name(file, (first_free(taken, 0) + 1) as nat),
                })
                &&& actions[1] == (ActionModel::Write { file, key })
            },
            (_, None) => forall|k: int| #![trigger taken[k]] 0 <= k < taken.len() ==> taken[k],
        },
{
    lemma_first_free_is_free(taken, 0);
}

} // verus!
