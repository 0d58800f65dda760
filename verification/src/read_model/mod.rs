//! A reference model of the read path, for driving a tree with random actions.
//!
//! Random bytes decode to a list of [`Action`]s. [`ReadModel`] plays them on a
//! sorted list of entries and says what a tree has to answer to each.
use arbitrary::Unstructured;
use vstd::prelude::*;

pub mod keys;
pub mod model;

pub use keys::{delimiter, key, missing_key, prefix, value};
pub use model::{Expected, ExpectedKeyEntry, ReadModel};

verus! {

/// Most actions of one input.
pub const MAX_ACTIONS: u16 = 48;

/// Directories that are preloaded.
pub const DIRS: u8 = 8;

/// Directories that are asked for: two of them are never there.
pub const PREFIXES: u8 = 10;

/// Files that are preloaded into each directory.
pub const FILES_PER_DIR: u16 = 256;

/// Number of delimiters that scans roll keys up by.
pub const DELIMITERS: u8 = 6;

// ---------- random bytes ----------

/// A cursor over random bytes.
#[verifier::external_type_specification]
#[verifier::external_body]
pub struct ExUnstructured<'a>(Unstructured<'a>);

/// The bytes that a cursor has not handed out yet.
pub uninterp spec fn unread(u: Unstructured<'_>) -> Seq<u8>;

/// An integer from `start` to `end` drawn from `bytes`, and the bytes left.
///
/// A range of one integer takes no byte, one of up to 256 takes one byte, a wider
/// one takes two; where bytes run out, fewer. The bytes, read with the first one
/// on top, are reduced modulo the number of integers.
pub open spec fn drawn(bytes: Seq<u8>, start: int, end: int) -> (int, Seq<u8>) {
    let want: int = if start == end {
        0
    } else if end - start < 256 {
        1
    } else {
        2
    };
    let n: int = if want <= bytes.len() {
        want
    } else {
        bytes.len() as int
    };
    let raw: int = if n == 0 {
        0
    } else if n == 1 {
        bytes[0] as int
    } else {
        256 * bytes[0] + bytes[1]
    };
    (start + raw % (end - start + 1), bytes.skip(n))
}

/// [`Unstructured::new`]: a cursor that has handed nothing out yet.
#[verifier::external_body]
fn cursor(bytes: &[u8]) -> (u: Unstructured<'_>)
    ensures
        unread(u) == bytes@,
{
    Unstructured::new(bytes)
}

/// [`Unstructured::int_in_range`] on 16-bit integers: it always succeeds, with
/// the integer that [`drawn`] says, and takes the bytes that it says. It panics
/// on an empty range.
#[verifier::external_body]
fn int_in_range(u: &mut Unstructured<'_>, start: u16, end: u16) -> (r: Option<u16>)
    requires
        start <= end,
    ensures
        r matches Some(n) && n == drawn(unread(*old(u)), start as int, end as int).0,
        unread(*final(u)) == drawn(unread(*old(u)), start as int, end as int).1,
{
    u.int_in_range(start..=end).ok()
}

/// An 8-bit integer from 0 to `end`, and the cursor moved on.
fn small_int(u: &mut Unstructured<'_>, end: u8) -> (r: Option<u8>)
    ensures
        r matches Some(n) && n == drawn(unread(*old(u)), 0, end as int).0 && n <= end,
        unread(*final(u)) == drawn(unread(*old(u)), 0, end as int).1,
{
    match int_in_range(u, 0, end as u16) {
        Some(n) => Some(n as u8),
        None => None,
    }
}

/// A directory that is preloaded.
pub fn live_dir_id(u: &mut Unstructured<'_>) -> (r: Option<u8>)
    ensures
        r matches Some(n) && n == drawn(unread(*old(u)), 0, 7).0 && n < DIRS,
        unread(*final(u)) == drawn(unread(*old(u)), 0, 7).1,
{
    small_int(u, DIRS - 1)
}

/// A directory that is asked for.
pub fn prefix_id(u: &mut Unstructured<'_>) -> (r: Option<u8>)
    ensures
        r matches Some(n) && n == drawn(unread(*old(u)), 0, 9).0 && n < PREFIXES,
        unread(*final(u)) == drawn(unread(*old(u)), 0, 9).1,
{
    small_int(u, PREFIXES - 1)
}

/// A delimiter.
pub fn delimiter_id(u: &mut Unstructured<'_>) -> (r: Option<u8>)
    ensures
        r matches Some(n) && n == drawn(unread(*old(u)), 0, 5).0 && n < DELIMITERS,
        unread(*final(u)) == drawn(unread(*old(u)), 0, 5).1,
{
    small_int(u, DELIMITERS - 1)
}

/// A file that is preloaded.
pub fn file_id(u: &mut Unstructured<'_>) -> (r: Option<u16>)
    ensures
        r matches Some(n) && n == drawn(unread(*old(u)), 0, 255).0 && n < FILES_PER_DIR,
        unread(*final(u)) == drawn(unread(*old(u)), 0, 255).1,
{
    int_in_range(u, 0, FILES_PER_DIR - 1)
}

// ---------- actions ----------

/// One step of a run.
#[derive(Debug, Clone, Copy, PartialEq, Eq, Structural)]
pub enum Action {
    Get { dir: u8, file: u16 },
    GetMissing { dir: u8, file: u16 },
    PrefixEmpty { dir: u8 },
    ScanDelimiter { dir: u8, delimiter: u8 },
    Delete { dir: u8, file: u16 },
    Put { dir: u8, file: u16, rev: u8 },
    CheckpointReopen,
    Reopen,
}

/// The action that `bytes` start with, and the bytes left.
pub open spec fn action_in(bytes: Seq<u8>) -> (Action, Seq<u8>) {
    let (kind, b1) = drawn(bytes, 0, 7);
    let (live, after_live) = drawn(b1, 0, 7);
    let (asked, after_asked) = drawn(b1, 0, 9);
    let (live_file, after_live_file) = drawn(after_live, 0, 255);
    let (asked_file, after_asked_file) = drawn(after_asked, 0, 255);
    let (delimiter, after_delimiter) = drawn(after_asked, 0, 5);
    let (new_file, after_new_file) = drawn(after_live, 0, 288);
    let (rev, after_rev) = drawn(after_new_file, 0, 255);
    if kind == 0 {
        (Action::Get { dir: live as u8, file: live_file as u16 }, after_live_file)
    } else if kind == 1 {
        (Action::GetMissing { dir: asked as u8, file: asked_file as u16 }, after_asked_file)
    } else if kind == 2 {
        (Action::PrefixEmpty { dir: asked as u8 }, after_asked)
    } else if kind == 3 {
        (
            Action::ScanDelimiter { dir: asked as u8, delimiter: delimiter as u8 },
            after_delimiter,
        )
    } else if kind == 4 {
        (Action::Delete { dir: live as u8, file: live_file as u16 }, after_live_file)
    } else if kind == 5 {
        (Action::Put { dir: live as u8, file: new_file as u16, rev: rev as u8 }, after_rev)
    } else if kind == 6 {
        (Action::CheckpointReopen, b1)
    } else {
        (Action::Reopen, b1)
    }
}

/// The directories and files that an action can name.
pub open spec fn in_bounds(a: Action) -> bool {
    match a {
        Action::Get { dir, file } => dir < DIRS && file < FILES_PER_DIR,
        Action::GetMissing { dir, file } => dir < PREFIXES && file < FILES_PER_DIR,
        Action::PrefixEmpty { dir } => dir < PREFIXES,
        Action::ScanDelimiter { dir, delimiter } => dir < PREFIXES && delimiter < DELIMITERS,
        Action::Delete { dir, file } => dir < DIRS && file < FILES_PER_DIR,
        Action::Put { dir, file, rev } => dir < DIRS && file <= FILES_PER_DIR + 32,
        _ => true,
    }
}

impl Action {
    /// Draw one action.
    pub fn arbitrary(u: &mut Unstructured<'_>) -> (r: Option<Self>)
        ensures
            r matches Some(a) && a == action_in(unread(*old(u))).0 && in_bounds(a),
            unread(*final(u)) == action_in(unread(*old(u))).1,
    {
        let kind: u8 = match small_int(u, 7) {
            Some(n) => n,
            None => {
                return None;
            },
        };
        if kind == 6 {
            return Some(Action::CheckpointReopen);
        }
        if kind == 7 {
            return Some(Action::Reopen);
        }
        let asked: bool = 1 <= kind && kind <= 3;
        let dir: u8 = match if asked {
            prefix_id(u)
        } else {
            live_dir_id(u)
        } {
            Some(n) => n,
            None => {
                return None;
            },
        };
        if kind == 2 {
            return Some(Action::PrefixEmpty { dir });
        }
        if kind == 3 {
            return match delimiter_id(u) {
                Some(delimiter) => Some(Action::ScanDelimiter { dir, delimiter }),
                None => None,
            };
        }
        if kind == 5 {
            let file: u16 = match int_in_range(u, 0, FILES_PER_DIR + 32) {
                Some(n) => n,
                None => {
                    return None;
                },
            };
            return match small_int(u, 255) {
                Some(rev) => Some(Action::Put { dir, file, rev }),
                None => None,
            };
        }
        match file_id(u) {
            Some(file) => if kind == 0 {
                Some(Action::Get { dir, file })
            } else if kind == 1 {
                Some(Action::GetMissing { dir, file })
            } else {
                Some(Action::Delete { dir, file })
            },
            None => None,
        }
    }
}

/// A run: the actions to play one after the other.
#[derive(Debug, Clone)]
pub struct Input {
    pub actions: Vec<Action>,
}

/// The first `n` actions in `bytes`, and the bytes left.
pub open spec fn actions_in(bytes: Seq<u8>, n: nat) -> (Seq<Action>, Seq<u8>)
    decreases n,
{
    if n == 0 {
        (Seq::empty(), bytes)
    } else {
        let (before, rest) = actions_in(bytes, (n - 1) as nat);
        let (a, left) = action_in(rest);
        (before.push(a), left)
    }
}

/// The actions of a run decoded from `bytes`: their number, then each of them.
pub open spec fn run_in(bytes: Seq<u8>) -> Seq<Action> {
    let (n, rest) = drawn(bytes, 0, 48);
    actions_in(rest, n as nat).0
}

/// The bytes that a run decoded from `bytes` leaves.
pub open spec fn after_run(bytes: Seq<u8>) -> Seq<u8> {
    let (n, rest) = drawn(bytes, 0, 48);
    actions_in(rest, n as nat).1
}

impl Input {
    /// Draw a run.
    pub fn arbitrary(u: &mut Unstructured<'_>) -> (r: Option<Self>)
        ensures
            unread(*final(u)) == after_run(unread(*old(u))),
            r matches Some(input) && input.actions@ == run_in(unread(*old(u))) && forall|i: int|
                0 <= i < input.actions@.len() ==> in_bounds(#[trigger] input.actions@[i]),
    {
        let ghost bytes = unread(*u);
        let len: u16 = match int_in_range(u, 0, MAX_ACTIONS) {
            Some(n) => n,
            None => {
                return None;
            },
        };
        let ghost rest = unread(*u);
        let mut actions: Vec<Action> = Vec::with_capacity(len as usize);
        let mut i: u16 = 0;
        while i < len
            invariant
                i <= len,
                actions@.len() == i,
                (actions@, unread(*u)) == actions_in(rest, i as nat),
                forall|j: int| 0 <= j < i ==> in_bounds(#[trigger] actions@[j]),
            decreases len - i,
        {
            match Action::arbitrary(u) {
                Some(a) => {
                    actions.push(a);
                },
                None => {
                    return None;
                },
            }
            i += 1;
        }
        Some(Input { actions })
    }

    /// The run that `bytes` hold.
    pub fn from_bytes(bytes: &[u8]) -> (r: Option<Self>)
        ensures
            r matches Some(input) && input.actions@ == run_in(bytes@) && forall|i: int|
                0 <= i < input.actions@.len() ==> in_bounds(#[trigger] input.actions@[i]),
    {
        let mut u = cursor(bytes);
        Input::arbitrary(&mut u)
    }
}

// ---------- laws ----------

/// A range of up to 256 integers from zero takes one byte.
proof fn lemma_drawn_byte(b: Seq<u8>, end: int)
    requires
        0 < end < 256,
    ensures
        b.len() > 0 ==> drawn(b, 0, end) == (b[0] as int % (end + 1), b.skip(1)),
        b.len() > 0 && end == 255 ==> drawn(b, 0, end).0 == b[0],
        b.len() == 0 ==> drawn(b, 0, end).0 == 0,
{
    assert(0int % (end + 1) == 0) by (nonlinear_arith)
        requires
            end > 0,
    ;
    if b.len() > 0 && end == 255 {
        assert(b[0] as int % 256 == b[0]);
    }
}

/// The first byte, modulo 8, tells the action; the bytes behind it name the
/// directory, the file, the delimiter and the revision, and no byte is read twice
/// or passed over.
pub proof fn the_first_byte_tells_the_action(b: Seq<u8>)
    requires
        b.len() >= 5,
    ensures
        b[0] % 8 == 0 ==> action_in(b) == (
            Action::Get { dir: (b[1] % 8) as u8, file: b[2] as u16 },
            b.skip(3),
        ),
        b[0] % 8 == 1 ==> action_in(b) == (
            Action::GetMissing { dir: (b[1] % 10) as u8, file: b[2] as u16 },
            b.skip(3),
        ),
        b[0] % 8 == 2 ==> action_in(b) == (
            Action::PrefixEmpty { dir: (b[1] % 10) as u8 },
            b.skip(2),
        ),
        b[0] % 8 == 3 ==> action_in(b) == (
            Action::ScanDelimiter { dir: (b[1] % 10) as u8, delimiter: (b[2] % 6) as u8 },
            b.skip(3),
        ),
        b[0] % 8 == 4 ==> action_in(b) == (
            Action::Delete { dir: (b[1] % 8) as u8, file: b[2] as u16 },
            b.skip(3),
        ),
        b[0] % 8 == 5 ==> action_in(b) == (
            Action::Put {
                dir: (b[1] % 8) as u8,
                file: ((256 * b[2] + b[3]) % 289) as u16,
                rev: b[4],
            },
            b.skip(5),
        ),
        b[0] % 8 == 6 ==> action_in(b) == (Action::CheckpointReopen, b.skip(1)),
        b[0] % 8 == 7 ==> action_in(b) == (Action::Reopen, b.skip(1)),
{
    let b1 = b.skip(1);
    let b2 = b1.skip(1);
    let b4 = b2.skip(2);
    assert(b2 =~= b.skip(2));
    assert(b2.skip(1) =~= b.skip(3));
    assert(b4 =~= b.skip(4));
    assert(b4.skip(1) =~= b.skip(5));
    assert(b1[0] == b[1] && b2[0] == b[2] && b2[1] == b[3] && b4[0] == b[4]);
    lemma_drawn_byte(b, 7);
    lemma_drawn_byte(b1, 7);
    lemma_drawn_byte(b1, 9);
    lemma_drawn_byte(b2, 255);
    lemma_drawn_byte(b2, 5);
    lemma_drawn_byte(b4, 255);
    let wide = drawn(b2, 0, 288);
    assert(wide == ((256 * b[2] + b[3]) % 289, b4));
}

/// Actions are read one behind the other: the first one, and then those of the
/// bytes that it left.
pub proof fn actions_follow_one_another(b: Seq<u8>, n: nat)
    ensures
        actions_in(b, (n + 1) as nat).0 == seq![action_in(b).0] + actions_in(action_in(b).1, n).0,
        actions_in(b, (n + 1) as nat).1 == actions_in(action_in(b).1, n).1,
        actions_in(b, n).0.len() == n,
    decreases n,
{
    reveal_with_fuel(actions_in, 2);
    if n > 0 {
        actions_follow_one_another(b, (n - 1) as nat);
        let rest = actions_in(action_in(b).1, (n - 1) as nat);
        let last = action_in(rest.1).0;
        assert(seq![action_in(b).0] + rest.0.push(last) =~= (seq![action_in(b).0] + rest.0).push(
            last,
        ));
    } else {
        assert(seq![action_in(b).0] + Seq::<Action>::empty() =~= Seq::<Action>::empty().push(
            action_in(b).0,
        ));
    }
}

/// A run has as many actions as its first byte says, modulo 49, and they stand in
/// the bytes behind it. A run of no bytes has none.
pub proof fn a_run_starts_with_its_length(b: Seq<u8>)
    ensures
        b.len() == 0 ==> run_in(b).len() == 0,
        b.len() > 0 ==> run_in(b).len() == b[0] as int % 49 && (run_in(b).len() > 0 ==> run_in(b)[0]
            == action_in(b.skip(1)).0),
{
    let (n, rest) = drawn(b, 0, 48);
    lemma_drawn_byte(b, 48);
    actions_follow_one_another(rest, n as nat);
    if n > 0 {
        actions_follow_one_another(rest, (n - 1) as nat);
        assert((seq![action_in(rest).0] + actions_in(action_in(rest).1, (n - 1) as nat).0)[0]
            == action_in(rest).0);
    }
}

/// What a run leaves starts where its last action ended; one of no actions leaves
/// all but the byte of its length.
pub proof fn a_run_leaves_what_it_did_not_read(b: Seq<u8>)
    requires
        b.len() > 0,
    ensures
        b[0] % 49 == 0 ==> after_run(b) == b.skip(1),
        b[0] % 49 == 1 ==> after_run(b) == action_in(b.skip(1)).1,
        run_in(b).len() > 0 ==> after_run(b) == actions_in(
            action_in(b.skip(1)).1,
            (b[0] % 49 - 1) as nat,
        ).1,
{
    let (n, rest) = drawn(b, 0, 48);
    lemma_drawn_byte(b, 48);
    a_run_starts_with_its_length(b);
    if n > 0 {
        actions_follow_one_another(rest, (n - 1) as nat);
    }
}

/// Whatever the bytes are, an action names a directory and a file that runs know:
/// one of 8 directories and of 256 files, or of 10 directories where it may find
/// none, or of 289 files where it puts one.
pub proof fn every_action_names_what_runs_know(b: Seq<u8>)
    ensures
        match action_in(b).0 {
            Action::Get { dir, file } => dir < 8 && file < 256,
            Action::GetMissing { dir, file } => dir < 10 && file < 256,
            Action::PrefixEmpty { dir } => dir < 10,
            Action::ScanDelimiter { dir, delimiter } => dir < 10 && delimiter < 6,
            Action::Delete { dir, file } => dir < 8 && file < 256,
            Action::Put { dir, file, rev } => dir < 8 && file < 289,
            Action::CheckpointReopen => true,
            Action::Reopen => true,
        },
        in_bounds(action_in(b).0),
{
    let b1 = drawn(b, 0, 7).1;
    let live = drawn(b1, 0, 7).1;
    let asked = drawn(b1, 0, 9).1;
    lemma_drawn_range(b, 7);
    lemma_drawn_range(b1, 7);
    lemma_drawn_range(b1, 9);
    lemma_drawn_range(live, 255);
    lemma_drawn_range(asked, 255);
    lemma_drawn_range(asked, 5);
    lemma_drawn_range(live, 288);
}

proof fn lemma_drawn_range(b: Seq<u8>, end: int)
    requires
        0 <= end,
    ensures
        0 <= drawn(b, 0, end).0 <= end,
{
    let raw = if b.len() == 0 {
        0
    } else if b.len() == 1 || end < 256 {
        b[0] as int
    } else {
        256 * b[0] + b[1]
    };
    assert(0 <= raw % (end + 1) <= end) by (nonlinear_arith)
        requires
            0 <= end,
            raw >= 0,
    ;
    assert(0int % (end + 1) == 0) by (nonlinear_arith)
        requires
            0 <= end,
    ;
}

} // verus!
