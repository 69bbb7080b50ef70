//! The clipboard core: snapshots of the selection in every advertised format,
//! the all-or-nothing capture of such a snapshot, and the model of the
//! detached publisher that serves it until another owner supersedes it.

use vstd::prelude::*;

use crate::targets::split_whitespace;
use crate::targets::split_whitespace_words;
use vstd::utf8::decode_utf8;
use vstd::utf8::valid_utf8;

verus! {

/// Why a capture of the current selection failed.
#[derive(Debug)]
pub enum CaptureError {
    /// No current clipboard owner answered the format enumeration request.
    OwnerUnavailable,
    /// The owner answered the format enumeration with bytes that are not text.
    Encoding,
    /// The data for the named format could not be retrieved.
    TargetFetch(String),
}

/// Why publishing a snapshot failed.
#[derive(Debug)]
pub enum PublishError {
    /// The detached execution context for the server path could not be created.
    DetachFailed,
}

/// No two entries share a key.
pub open spec fn unique_keys(es: Seq<(Seq<char>, Seq<u8>)>) -> bool {
    forall|i: int, j: int| 0 <= i < j < es.len() ==> es[i].0 != es[j].0
}

/// The enumeration pseudo-format names no entry: it is metadata about a
/// snapshot, never payload.
pub open spec fn no_reserved_key(es: Seq<(Seq<char>, Seq<u8>)>) -> bool {
    forall|i: int| 0 <= i < es.len() ==> es[i].0 != "TARGETS"@
}

/// The mapping that a sequence of entries denotes; a later entry for the same
/// key overrides an earlier one.
pub open spec fn map_of(es: Seq<(Seq<char>, Seq<u8>)>) -> Map<Seq<char>, Seq<u8>>
    decreases es.len(),
{
    if es.len() == 0 {
        Map::empty()
    } else {
        map_of(es.drop_last()).insert(es.last().0, es.last().1)
    }
}

proof fn lemma_map_of_contains(es: Seq<(Seq<char>, Seq<u8>)>, k: Seq<char>)
    ensures
        map_of(es).contains_key(k) <==> exists|i: int| 0 <= i < es.len() && es[i].0 == k,
    decreases es.len(),
{
    if es.len() > 0 {
        lemma_map_of_contains(es.drop_last(), k);
        if es.last().0 == k {
            assert(es[es.len() - 1].0 == k);
        } else {
            if map_of(es).contains_key(k) {
                let i = choose|i: int|
                    0 <= i < es.drop_last().len() && es.drop_last()[i].0 == k;
                assert(es[i].0 == k);
            }
            if exists|i: int| 0 <= i < es.len() && es[i].0 == k {
                let i = choose|i: int| 0 <= i < es.len() && es[i].0 == k;
                assert(es.drop_last()[i].0 == k);
            }
        }
    }
}

proof fn lemma_map_of_get(es: Seq<(Seq<char>, Seq<u8>)>, i: int)
    requires
        unique_keys(es),
        0 <= i < es.len(),
    ensures
        map_of(es).contains_key(es[i].0),
        map_of(es)[es[i].0] == es[i].1,
    decreases es.len(),
{
    if i < es.len() - 1 {
        assert(unique_keys(es.drop_last()));
        lemma_map_of_get(es.drop_last(), i);
        assert(es.drop_last()[i] == es[i]);
        assert(es.last().0 != es[i].0);
    }
}

proof fn lemma_map_of_push(es: Seq<(Seq<char>, Seq<u8>)>, k: Seq<char>, v: Seq<u8>)
    ensures
        map_of(es.push((k, v))) == map_of(es).insert(k, v),
{
    assert(es.push((k, v)).drop_last() =~= es);
    assert(es.push((k, v)).last() == (k, v));
}

proof fn lemma_map_of_update(es: Seq<(Seq<char>, Seq<u8>)>, i: int, v: Seq<u8>)
    requires
        unique_keys(es),
        0 <= i < es.len(),
    ensures
        map_of(es.update(i, (es[i].0, v))) == map_of(es).insert(es[i].0, v),
    decreases es.len(),
{
    let k = es[i].0;
    let es2 = es.update(i, (k, v));
    if i == es.len() - 1 {
        assert(es2.drop_last() =~= es.drop_last());
        assert(es2.last() == (k, v));
        assert(map_of(es2) =~= map_of(es).insert(k, v));
    } else {
        assert(unique_keys(es.drop_last()));
        assert(es.drop_last()[i] == es[i]);
        lemma_map_of_update(es.drop_last(), i, v);
        assert(es2.drop_last() =~= es.drop_last().update(i, (k, v)));
        assert(es2.last() == es.last());
        assert(es.last().0 != k);
        assert(map_of(es2) =~= map_of(es).insert(k, v));
    }
}

proof fn lemma_map_of_dom_len(es: Seq<(Seq<char>, Seq<u8>)>)
    requires
        unique_keys(es),
    ensures
        map_of(es).dom().finite(),
        map_of(es).dom().len() == es.len(),
    decreases es.len(),
{
    if es.len() > 0 {
        assert(unique_keys(es.drop_last()));
        lemma_map_of_dom_len(es.drop_last());
        lemma_map_of_contains(es.drop_last(), es.last().0);
        assert(forall|i: int|
            0 <= i < es.drop_last().len() ==> es.drop_last()[i].0 != es.last().0);
        assert(!map_of(es.drop_last()).contains_key(es.last().0));
    }
}

/// An immutable snapshot of the selection: the bytes that the owner serves,
/// by format identifier.
pub struct Contents {
    entries: Vec<(String, Vec<u8>)>,
}

impl View for Contents {
    type V = Map<Seq<char>, Seq<u8>>;

    closed spec fn view(&self) -> Map<Seq<char>, Seq<u8>> {
        map_of(self.entry_view())
    }
}

impl Contents {
    /// The entries as they are stored, with their order.
    pub closed spec fn entry_view(self) -> Seq<(Seq<char>, Seq<u8>)> {
        self.entries.deep_view()
    }

    /// Keys are unique and the enumeration pseudo-format is never among them.
    pub closed spec fn wf(self) -> bool {
        unique_keys(self.entry_view()) && no_reserved_key(self.entry_view())
    }

    /// A snapshot with no formats at all.
    pub fn empty() -> (c: Contents)
        ensures
            c.wf(),
            c@ == Map::<Seq<char>, Seq<u8>>::empty(),
            c.entry_view() == Seq::<(Seq<char>, Seq<u8>)>::empty(),
    {
        let c = Contents { entries: Vec::new() };
        proof {
            assert(c.entry_view() =~= Seq::<(Seq<char>, Seq<u8>)>::empty());
        }
        c
    }

    /// Places `bytes` under `target`, overriding any earlier entry for it.
    /// The enumeration pseudo-format is metadata, not payload, so it is
    /// never stored.
    pub fn insert(&mut self, target: String, bytes: Vec<u8>)
        requires
            old(self).wf(),
        ensures
            final(self).wf(),
            final(self)@ == if target@ == "TARGETS"@ {
                old(self)@
            } else {
                old(self)@.insert(target@, bytes@)
            },
    {
        let marker = targets_marker();
        if target == marker {
            return ;
        }
        let n = self.entries.len();
        let mut i: usize = 0;
        while i < n
            invariant
                *self == *old(self),
                old(self).wf(),
                n == self.entry_view().len(),
                i <= n,
                target@ != "TARGETS"@,
                forall|m: int| 0 <= m < i ==> self.entry_view()[m].0 != target@,
            decreases n - i,
        {
            if self.entries[i].0 == target {
                let ghost es = self.entry_view();
                let ghost i0 = i as int;
                let ghost tv = target@;
                let ghost bv = bytes@;
                self.entries[i] = (target, bytes);
                proof {
                    assert(self.entries@[i0].deep_view() == (tv, bv));
                    assert(es[i0].0 == tv);
                    assert(forall|m: int|
                        0 <= m < es.len() && m != i0 ==> self.entry_view()[m] == es[m]);
                    assert(self.entry_view() =~= es.update(i0, (es[i0].0, bytes@)));
                    lemma_map_of_update(es, i0, bytes@);
                    assert(unique_keys(self.entry_view()));
                    assert(no_reserved_key(self.entry_view()));
                }
                return ;
            }
            i = i + 1;
        }
        let ghost es = self.entry_view();
        let ghost tv = target@;
        let ghost bv = bytes@;
        self.entries.push((target, bytes));
        proof {
            assert(self.entries@.len() == es.len() + 1);
            assert(self.entries@[es.len() as int].deep_view() == (tv, bv));
            assert(forall|m: int| 0 <= m < es.len() ==> self.entry_view()[m] == es[m]);
            assert(self.entry_view() =~= es.push((target@, bytes@)));
            lemma_map_of_push(es, target@, bytes@);
            lemma_map_of_contains(es, target@);
            assert(unique_keys(self.entry_view()));
            assert(no_reserved_key(self.entry_view()));
        }
    }

    /// The bytes stored for `target`, or nothing when the snapshot does not
    /// hold that format.
    pub fn get<'a>(&'a self, target: &String) -> (r: Option<&'a Vec<u8>>)
        requires
            self.wf(),
        ensures
            match r {
                Some(b) => self@.contains_key(target@) && b@ == self@[target@],
                None => !self@.contains_key(target@),
            },
    {
        let n = self.entries.len();
        let mut i: usize = 0;
        while i < n
            invariant
                self.wf(),
                n == self.entry_view().len(),
                i <= n,
                forall|m: int| 0 <= m < i ==> self.entry_view()[m].0 != target@,
            decreases n - i,
        {
            if self.entries[i].0 == *target {
                proof {
                    lemma_map_of_get(self.entry_view(), i as int);
                }
                return Some(&self.entries[i].1);
            }
            i = i + 1;
        }
        proof {
            lemma_map_of_contains(self.entry_view(), target@);
        }
        None
    }

    /// How many formats the snapshot holds.
    pub fn len(&self) -> (n: usize)
        requires
            self.wf(),
        ensures
            n == self.entry_view().len(),
            n == self@.dom().len(),
    {
        proof {
            lemma_map_of_dom_len(self.entry_view());
        }
        self.entries.len()
    }

    /// The stored entries, for a caller that must hand each format and its
    /// bytes to the windowing system one by one.
    pub fn entries<'a>(&'a self) -> (r: &'a Vec<(String, Vec<u8>)>)
        ensures
            r.deep_view() == self.entry_view(),
    {
        &self.entries
    }
}

/// The name of the enumeration pseudo-format.
fn targets_marker() -> (s: String)
    ensures
        s@ == "TARGETS"@,
{
    "TARGETS".to_owned()
}

/// A capture succeeds exactly when every fetched format outside the
/// enumeration pseudo-format produced its bytes.
pub open spec fn capture_ok(fv: Seq<(Seq<char>, Option<Seq<u8>>)>) -> bool {
    forall|i: int| 0 <= i < fv.len() && fv[i].0 != "TARGETS"@ ==> fv[i].1 is Some
}

/// The snapshot that a sequence of fetch results denotes: every produced
/// format except the enumeration pseudo-format, a later result overriding an
/// earlier one for the same format.
pub open spec fn capture_map(fv: Seq<(Seq<char>, Option<Seq<u8>>)>) -> Map<Seq<char>, Seq<u8>>
    decreases fv.len(),
{
    if fv.len() == 0 {
        Map::empty()
    } else {
        let m = capture_map(fv.drop_last());
        let p = fv.last();
        if p.0 == "TARGETS"@ || p.1 is None {
            m
        } else {
            m.insert(p.0, p.1->Some_0)
        }
    }
}

impl Contents {
    /// Builds a snapshot from the fetch results, one per requested format,
    /// in request order. The capture is all-or-nothing: the first format
    /// whose fetch produced nothing fails the whole capture, and no partial
    /// snapshot is ever returned.
    pub fn new(fetched: Vec<(String, Option<Vec<u8>>)>) -> (r: Result<Contents, CaptureError>)
        ensures
            match r {
                Ok(c) => c.wf() && capture_ok(fetched.deep_view()) && c@ == capture_map(
                    fetched.deep_view(),
                ),
                Err(e) => !capture_ok(fetched.deep_view()) && (match e {
                    CaptureError::TargetFetch(t) => exists|i: int|
                        0 <= i < fetched.deep_view().len() && #[trigger] fetched.deep_view()[i].0
                            == t@ && fetched.deep_view()[i].0 != "TARGETS"@
                            && fetched.deep_view()[i].1 is None && capture_ok(
                            fetched.deep_view().take(i),
                        ),
                    _ => false,
                }),
            },
    {
        let ghost fv = fetched.deep_view();
        let mut rest = fetched;
        let mut c = Contents::empty();
        let ghost mut i: int = 0;
        proof {
            assert(rest.deep_view() =~= fv.subrange(0, fv.len() as int));
            assert(fv.take(0) =~= Seq::<(Seq<char>, Option<Seq<u8>>)>::empty());
        }
        while rest.len() > 0
            invariant
                fv == fetched.deep_view(),
                0 <= i <= fv.len(),
                rest.deep_view() == fv.subrange(i, fv.len() as int),
                c.wf(),
                c@ == capture_map(fv.take(i)),
                capture_ok(fv.take(i)),
            decreases rest.len(),
        {
            let ghost rv = rest.deep_view();
            proof {
                assert(rv.len() == rest@.len());
            }
            let p = rest.remove(0);
            let (t, ob) = p;
            proof {
                assert(rv[0] == fv[i]);
                assert((t@, ob.deep_view()) == fv[i]);
                assert(forall|m: int|
                    0 <= m < rest@.len() ==> rest@[m].deep_view() == rv[m + 1]);
                assert(rest.deep_view() =~= fv.subrange(i + 1, fv.len() as int));
                assert(fv.take(i + 1).drop_last() =~= fv.take(i));
                assert(fv.take(i + 1).last() == fv[i]);
            }
            let marker = targets_marker();
            if t == marker {
                proof {
                    assert(capture_map(fv.take(i + 1)) == capture_map(fv.take(i)));
                    i = i + 1;
                }
            } else {
                match ob {
                    None => {
                        proof {
                            assert(fv[i].0 != "TARGETS"@ && fv[i].1 is None);
                            assert(!capture_ok(fv));
                        }
                        return Err(CaptureError::TargetFetch(t));
                    },
                    Some(b) => {
                        proof {
                            assert(ob.deep_view() == Some(b@));
                            assert(fv[i].0 == t@ && fv[i].1->Some_0 == b@);
                        }
                        c.insert(t, b);
                        proof {
                            assert(capture_map(fv.take(i + 1)) == capture_map(fv.take(i)).insert(
                                fv[i].0,
                                fv[i].1->Some_0,
                            ));
                            assert(c@ == capture_map(fv.take(i + 1)));
                            i = i + 1;
                        }
                    },
                }
            }
        }
        proof {
            assert(fv.take(i) =~= fv);
        }
        Ok(c)
    }
}

/// Relies on String::from_utf8: it succeeds exactly on valid UTF-8 input,
/// and then returns the decoding of that input.
#[verifier::external_body]
fn utf8_decode(bytes: Vec<u8>) -> (r: Option<String>)
    ensures
        r is Some <==> valid_utf8(bytes@),
        r matches Some(s) ==> s@ == decode_utf8(bytes@),
{
    String::from_utf8(bytes).ok()
}

/// The formats that are fetched for a capture: every advertised identifier
/// except the enumeration pseudo-format itself, in advertised order.
pub open spec fn fetch_list(ts: Seq<Seq<char>>) -> Seq<Seq<char>>
    decreases ts.len(),
{
    if ts.len() == 0 {
        Seq::empty()
    } else {
        let rest = fetch_list(ts.drop_last());
        if ts.last() == "TARGETS"@ {
            rest
        } else {
            rest.push(ts.last())
        }
    }
}

/// The selection-capture and selection-publish rules.
pub struct Clipboard;

impl Clipboard {
    /// Reads the answer to the format enumeration request. No answer means
    /// no owner was available; an answer that is not valid text cannot name
    /// formats; otherwise its whitespace-separated words are the advertised
    /// format identifiers.
    pub fn parse_targets(reply: Option<Vec<u8>>) -> (r: Result<Vec<String>, CaptureError>)
        ensures
            match r {
                Ok(ts) => reply matches Some(b) && valid_utf8(b@) && ts.deep_view()
                    == split_whitespace(decode_utf8(b@)),
                Err(e) => match e {
                    CaptureError::OwnerUnavailable => reply is None,
                    CaptureError::Encoding => reply matches Some(b) && !valid_utf8(b@),
                    CaptureError::TargetFetch(_) => false,
                },
            },
    {
        match reply {
            None => Err(CaptureError::OwnerUnavailable),
            Some(bytes) => match utf8_decode(bytes) {
                None => Err(CaptureError::Encoding),
                Some(text) => Ok(split_whitespace_words(text.as_str())),
            },
        }
    }

    /// Plans the per-format requests of a capture: every advertised
    /// identifier is fetched except the enumeration pseudo-format.
    pub fn targets_to_fetch(targets: &Vec<String>) -> (r: Vec<String>)
        ensures
            r.deep_view() == fetch_list(targets.deep_view()),
    {
        let ghost tv = targets.deep_view();
        let mut r: Vec<String> = Vec::new();
        let marker = targets_marker();
        let n = targets.len();
        let mut idx: usize = 0;
        proof {
            assert(tv.take(0) =~= Seq::<Seq<char>>::empty());
            assert(r.deep_view() =~= Seq::<Seq<char>>::empty());
        }
        while idx < n
            invariant
                n == targets@.len(),
                tv == targets.deep_view(),
                marker@ == "TARGETS"@,
                idx <= n,
                r.deep_view() == fetch_list(tv.take(idx as int)),
            decreases n - idx,
        {
            let t = targets[idx].clone();
            proof {
                assert(t@ == tv[idx as int]);
                assert(tv.take(idx + 1).drop_last() =~= tv.take(idx as int));
                assert(tv.take(idx + 1).last() == tv[idx as int]);
            }
            if t == marker {
                proof {
                    assert(fetch_list(tv.take(idx + 1)) == fetch_list(tv.take(idx as int)));
                }
            } else {
                let ghost r_before = r.deep_view();
                r.push(t);
                proof {
                    assert(r.deep_view() =~= r_before.push(tv[idx as int]));
                    assert(fetch_list(tv.take(idx + 1)) == fetch_list(tv.take(idx as int)).push(
                        tv[idx as int],
                    ));
                }
            }
            idx = idx + 1;
        }
        proof {
            assert(tv.take(n as int) =~= tv);
        }
        r
    }

    /// Sorts out what the detach request produced: a failure claims no
    /// ownership, and otherwise exactly one of the two paths is the server.
    pub fn detach_decision(fork_result: i32) -> (r: Result<Role, PublishError>)
        ensures
            r == (if fork_result == -1 {
                Err::<Role, PublishError>(PublishError::DetachFailed)
            } else if fork_result == 0 {
                Ok::<Role, PublishError>(Role::Server)
            } else {
                Ok::<Role, PublishError>(Role::Caller)
            }),
    {
        if fork_result == -1 {
            Err(PublishError::DetachFailed)
        } else if fork_result == 0 {
            Ok(Role::Server)
        } else {
            Ok(Role::Caller)
        }
    }
}

/// Which of the two execution paths of a publish this process continues on.
pub enum Role {
    /// The path that returns to the caller as soon as hand-off is initiated.
    Caller,
    /// The detached path that owns the selection and serves it.
    Server,
}

/// An ownership query means loss of ownership unless it reports this very
/// window; a query without an answer counts as loss, conservatively.
pub open spec fn ownership_lost(reported_owner: Option<u32>, window: u32) -> bool {
    reported_owner != Some(window)
}

/// What the published owner answers when asked to convert the selection to
/// `target`: exactly the stored bytes, or "unsupported" when the snapshot
/// does not hold that format — never fabricated data.
pub open spec fn response(snapshot: Map<Seq<char>, Seq<u8>>, target: Seq<char>) -> Option<
    Seq<u8>,
> {
    if snapshot.contains_key(target) {
        Some(snapshot[target])
    } else {
        None
    }
}

/// The server path of a publish: it holds the snapshot, the window that
/// claimed the selection for it, and whether that claim still stands.
pub struct Publisher {
    contents: Contents,
    window: u32,
    owner: bool,
}

impl Publisher {
    /// The snapshot this publisher serves.
    pub closed spec fn snapshot(self) -> Map<Seq<char>, Seq<u8>> {
        self.contents@
    }

    /// The window under which this publisher claimed the selection.
    pub closed spec fn window(self) -> u32 {
        self.window
    }

    /// Whether this publisher still holds the claim it made.
    pub closed spec fn is_owner(self) -> bool {
        self.owner
    }

    pub closed spec fn wf(self) -> bool {
        self.contents.wf()
    }

    /// Claims the selection for `window` and installs a conversion responder
    /// for every format of the snapshot, superseding whatever owner existed
    /// before.
    pub fn start(contents: Contents, window: u32) -> (p: Publisher)
        requires
            contents.wf(),
        ensures
            p.wf(),
            p.snapshot() == contents@,
            p.window() == window,
            p.is_owner(),
    {
        Publisher { contents, window, owner: true }
    }

    /// Answers a conversion request: the stored bytes for `target`,
    /// byte for byte, or nothing when the snapshot has no such format.
    pub fn respond<'a>(&'a self, target: &String) -> (r: Option<&'a Vec<u8>>)
        requires
            self.wf(),
            self.is_owner(),
        ensures
            match r {
                Some(b) => response(self.snapshot(), target@) == Some(b@),
                None => response(self.snapshot(), target@) is None,
            },
    {
        self.contents.get(target)
    }

    /// One turn of the ownership watch: told who the windowing system
    /// reports as owner, the publisher exits exactly when that is no longer
    /// its own window; a query that produced no answer counts as loss.
    pub fn poll(&mut self, reported_owner: Option<u32>) -> (exit: bool)
        requires
            old(self).wf(),
            old(self).is_owner(),
        ensures
            exit == ownership_lost(reported_owner, old(self).window()),
            final(self).is_owner() == !exit,
            final(self).wf(),
            final(self).snapshot() == old(self).snapshot(),
            final(self).window() == old(self).window(),
    {
        let lost = match reported_owner {
            None => true,
            Some(w) => w != self.window,
        };
        if lost {
            self.owner = false;
        }
        lost
    }
}

/// Round-trip law: publishing a snapshot and then asking the new owner for
/// any format the snapshot holds returns bytes identical to the snapshot's
/// value for that format.
pub proof fn lemma_round_trip(snapshot: Map<Seq<char>, Seq<u8>>, target: Seq<char>)
    requires
        snapshot.contains_key(target),
    ensures
        response(snapshot, target) == Some(snapshot[target]),
{
}

/// Unsupported-format law: a format absent from the snapshot is answered
/// with an explicit "unsupported", never with fabricated or empty payload,
/// however often it is asked.
pub proof fn lemma_unsupported_format(snapshot: Map<Seq<char>, Seq<u8>>, target: Seq<char>)
    requires
        !snapshot.contains_key(target),
    ensures
        response(snapshot, target) is None,
{
}

/// All-or-nothing law: one failed per-format fetch fails the whole capture,
/// whatever the other fetches produced.
pub proof fn lemma_all_or_nothing(fv: Seq<(Seq<char>, Option<Seq<u8>>)>, i: int)
    requires
        0 <= i < fv.len(),
        fv[i].0 != "TARGETS"@,
        fv[i].1 is None,
    ensures
        !capture_ok(fv),
{
}

/// Supersession law: the instant the reported owner differs from the
/// publisher's own window — another publisher claimed the selection, or the
/// query produced no answer — the watch declares ownership lost, so the
/// server path exits at that very poll.
pub proof fn lemma_supersession(p: Publisher, reported_owner: Option<u32>)
    requires
        reported_owner != Some(p.window()),
    ensures
        ownership_lost(reported_owner, p.window()),
{
}

/// Two-publishes law: once a second publisher under another window has
/// claimed the selection, the first one's watch exits at its next poll, and
/// a format that only the first snapshot held is answered "unsupported" by
/// the second.
pub proof fn lemma_second_publish_wins(first: Publisher, second: Publisher, target: Seq<char>)
    requires
        first.window() != second.window(),
        !second.snapshot().contains_key(target),
    ensures
        ownership_lost(Some(second.window()), first.window()),
        response(second.snapshot(), target) is None,
{
}

impl CaptureError {
    /// A plain-text account of the failure.
    pub fn message(&self) -> (s: String)
        ensures
            match self {
                CaptureError::OwnerUnavailable => s@ == "no clipboard owner is available"@,
                CaptureError::Encoding => s@ == "the format list is not valid text"@,
                CaptureError::TargetFetch(t) => s@ == "could not fetch target "@ + t@,
            },
    {
        match self {
            CaptureError::OwnerUnavailable => "no clipboard owner is available".to_owned(),
            CaptureError::Encoding => "the format list is not valid text".to_owned(),
            CaptureError::TargetFetch(t) => "could not fetch target ".to_owned().concat(
                t.as_str(),
            ),
        }
    }
}

impl PublishError {
    /// A plain-text account of the failure.
    pub fn message(&self) -> (s: String)
        ensures
            s@ == "Could not fork process"@,
    {
        "Could not fork process".to_owned()
    }
}

} // verus!
