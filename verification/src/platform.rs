//! Typing text at the desktop cursor without the clipboard: the decisions around the
//! platform's injection paths. On Linux the accessibility bus (AT-SPI) is tried first,
//! then the command-line injectors `xdotool` and `wtype`; the bus calls and the processes
//! are the caller's, and each outcome is handed back here.

use vstd::prelude::*;
use vstd::string::StringSliceAdditionalSpecFns;
use crate::text::{chars_contain, chars_end_with, chars_equal, chars_of, contains, ends_with};

verus! {

/// AT-SPI state bit of the active window.
pub const STATE_ACTIVE: u32 = 1;

/// AT-SPI state bit of the focused control.
pub const STATE_FOCUSED: u32 = 12;

/// Bit `bit` of the AT-SPI state set `state` (32 bits per word, lowest word first).
pub open spec fn state_bit(state: Seq<u32>, bit: u32) -> bool {
    (bit / 32) < state.len() && (state[(bit / 32) as int] >> (bit % 32)) & 1u32 == 1u32
}

/// Whether the AT-SPI state set `state` holds the state `bit`; a word past the end of the
/// set counts as all clear.
pub fn has_state(state: &Vec<u32>, bit: u32) -> (r: bool)
    ensures
        r == state_bit(state@, bit),
{
    let idx = (bit / 32) as usize;
    if idx < state.len() {
        let mask = state[idx];
        let shift = bit % 32;
        let r = mask & (1u32 << shift) != 0;
        assert(r == ((mask >> shift) & 1u32 == 1u32)) by (bit_vector)
            requires
                shift < 32,
                r == (mask & (1u32 << shift) != 0),
        ;
        r
    } else {
        false
    }
}

/// An AT-SPI interface list that includes an editable-text interface.
pub open spec fn lists_editable_text(ifaces: Seq<Seq<char>>) -> bool {
    exists|i: int| 0 <= i < ifaces.len() && ends_with(#[trigger] ifaces[i], "EditableText"@)
}

/// Whether some interface name in `ifaces` ends with `EditableText`.
pub fn has_editable_text(ifaces: &Vec<String>) -> (r: bool)
    ensures
        r == lists_editable_text(ifaces.deep_view()),
{
    let suffix = chars_of("EditableText");
    for i in 0..ifaces.len()
        invariant
            suffix@ == "EditableText"@,
            forall|j: int| 0 <= j < i ==> !ends_with(#[trigger] ifaces.deep_view()[j], "EditableText"@),
    {
        if chars_end_with(&chars_of(ifaces[i].as_str()), &suffix) {
            assert(ifaces.deep_view()[i as int] == ifaces@[i as int]@);
            return true;
        }
        assert(ifaces.deep_view()[i as int] == ifaces@[i as int]@);
    }
    false
}

/// Where typing stands after the accessibility bus was tried.
#[derive(Debug, PartialEq, Eq)]
pub enum Injection {
    /// Finished with this outcome.
    Done(Result<(), String>),
    /// The bus failed with this reason; try the command-line injectors next.
    TryCli(String),
}

/// The first step of typing on Linux: the AT-SPI attempt's outcome decides whether the
/// command-line injectors are needed.
pub fn inject_text(atspi: Result<(), String>) -> (r: Injection)
    ensures
        match atspi {
            Ok(()) => r matches Injection::Done(Ok(())),
            Err(e) => r matches Injection::TryCli(a) && a@ == e@,
        },
{
    match atspi {
        Ok(()) => Injection::Done(Ok(())),
        Err(e) => Injection::TryCli(e),
    }
}

/// The error reported when both the bus and the command line failed.
pub open spec fn both_failed(atspi_error: Seq<char>, cli_error: Seq<char>) -> Seq<char> {
    "AT-SPI: "@ + atspi_error + "; CLI: "@ + cli_error
}

/// The last step of typing on Linux, after the bus failed with `atspi_error`: success if the
/// command line succeeded, else an error naming both reasons (never a clipboard fallback).
pub fn finish_injection(atspi_error: &str, cli: Result<(), String>) -> (r: Result<(), String>)
    ensures
        match cli {
            Ok(()) => r is Ok,
            Err(c) => r matches Err(e) && e@ == both_failed(atspi_error@, c@),
        },
{
    match cli {
        Ok(()) => Ok(()),
        Err(c) => {
            let mut e = String::from_str("AT-SPI: ");
            e.append(atspi_error);
            e.append("; CLI: ");
            e.append(c.as_str());
            Err(e)
        },
    }
}

/// How running a command-line injector went.
#[derive(Clone, Debug, PartialEq, Eq)]
pub enum CliRun {
    /// The process ran and exited; `status` is its exit status as text.
    Finished { success: bool, status: String },
    /// The process could not be started (not installed).
    Unavailable,
}

/// Where the command-line path stands after `xdotool`.
#[derive(Debug, PartialEq, Eq)]
pub enum CliStep {
    /// Finished with this outcome.
    Done(Result<(), String>),
    /// `xdotool` is not there; try `wtype`.
    TryWtype,
}

/// Reported when neither injector can be started.
pub const NO_INJECTOR: &'static str = "no clipboard-free Linux injector found: install xdotool (X11) or wtype (Wayland), and enable the AT-SPI accessibility bus";

/// The error for an injector `tool` that exited with `status`.
pub open spec fn tool_failed(tool: Seq<char>, status: Seq<char>) -> Seq<char> {
    tool + " failed (status "@ + status + ")"@
}

/// `tool` followed by " failed (status <status>)".
fn failure_text(tool: &str, status: &str) -> (e: String)
    ensures
        e@ == tool_failed(tool@, status@),
{
    let mut e = String::from_str(tool);
    e.append(" failed (status ");
    e.append(status);
    e.append(")");
    e
}

/// The first command-line step: what `xdotool type` did decides the outcome, unless it
/// could not be started, in which case `wtype` is tried.
pub fn inject_cli(xdotool: CliRun) -> (r: CliStep)
    ensures
        match xdotool {
            CliRun::Finished { success: true, .. } => r matches CliStep::Done(Ok(())),
            CliRun::Finished { success: false, status } => r matches CliStep::Done(Err(e)) && e@
                == tool_failed("xdotool type"@, status@),
            CliRun::Unavailable => r is TryWtype,
        },
{
    match xdotool {
        CliRun::Finished { success, status } => {
            if success {
                CliStep::Done(Ok(()))
            } else {
                CliStep::Done(Err(failure_text("xdotool type", status.as_str())))
            }
        },
        CliRun::Unavailable => CliStep::TryWtype,
    }
}

/// The last command-line step, after `xdotool` could not be started: what `wtype` did.
pub fn finish_cli(wtype: CliRun) -> (r: Result<(), String>)
    ensures
        match wtype {
            CliRun::Finished { success: true, .. } => r is Ok,
            CliRun::Finished { success: false, status } => r matches Err(e) && e@ == tool_failed(
                "wtype"@,
                status@,
            ),
            CliRun::Unavailable => r matches Err(e) && e@ == NO_INJECTOR@,
        },
{
    match wtype {
        CliRun::Finished { success, status } => {
            if success {
                Ok(())
            } else {
                Err(failure_text("wtype", status.as_str()))
            }
        },
        CliRun::Unavailable => Err(String::from_str(NO_INJECTOR)),
    }
}

/// Whether typing is permitted: the platform's own answer where it has an accessibility
/// permission to ask about (`Some`, macOS), and `true` everywhere else (`None`).
pub fn is_accessibility_trusted(platform_answer: Option<bool>) -> (r: bool)
    ensures
        r == match platform_answer {
            Some(b) => b,
            None => true,
        },
{
    match platform_answer {
        Some(b) => b,
        None => true,
    }
}

/// Reading back the text around the caret shows the insertion took: the read-back range is
/// exactly the text, or holds it where it did not before.
pub open spec fn insertion_confirmed(before: Seq<char>, after: Seq<char>, text: Seq<char>) -> bool {
    after == text || (contains(after, text) && !contains(before, text))
}

/// Whether an `InsertText` is confirmed by what was read before and after it.
pub fn readback_verified(before: &str, after: &str, text: &str) -> (r: bool)
    ensures
        r == insertion_confirmed(before@, after@, text@),
{
    let t = chars_of(text);
    let a = chars_of(after);
    if chars_equal(&a, &t) {
        return true;
    }
    chars_contain(&a, &t) && !chars_contain(&chars_of(before), &t)
}

/// Where an insertion at the caret goes and what it reads back.
#[derive(Clone, Debug, PartialEq, Eq)]
pub struct InsertPlan {
    /// End (in characters) of the range read back before and after the insertion.
    pub end: i32,
    /// Length argument of `InsertText`: the text's length in UTF-8 bytes.
    pub byte_len: i32,
}

/// The plan for inserting `text` at caret offset `caret`, or `None` when the control
/// reports no caret (a negative offset). Offsets and lengths are `i32` on the bus, so the
/// text and the range must fit in it.
pub fn insert_plan(caret: i32, text: &str) -> (r: Option<InsertPlan>)
    requires
        caret >= 0 ==> text@.len() <= i32::MAX && text.spec_bytes().len() <= i32::MAX && caret
            + text@.len() <= i32::MAX,
    ensures
        caret < 0 ==> r is None,
        caret >= 0 ==> (r matches Some(p) && p.end == caret + text@.len() && p.byte_len
            == text.spec_bytes().len()),
{
    if caret < 0 {
        return None;
    }
    let nchars = chars_of(text).len() as i32;
    Some(InsertPlan { end: caret + nchars, byte_len: text.len() as i32 })
}

/// Reported when no focused editable control took the text.
pub const NO_EDITABLE_TARGET: &'static str = "no focused editable control accepted the text; click into a text field first";

/// Reported when a platform has no injection path.
pub const UNSUPPORTED_PLATFORM: &'static str = "unsupported platform";

/// An accessible object on the AT-SPI bus: the bus name that owns it and its object path.
#[derive(Clone, Debug, PartialEq, Eq)]
pub struct AccessibleRef {
    pub bus: String,
    pub path: String,
}

impl View for AccessibleRef {
    type V = (Seq<char>, Seq<char>);

    open spec fn view(&self) -> (Seq<char>, Seq<char>) {
        (self.bus@, self.path@)
    }
}

impl AccessibleRef {
    /// A copy of this reference.
    pub fn duplicate(&self) -> (r: AccessibleRef)
        ensures
            r@ == self@,
    {
        AccessibleRef { bus: self.bus.clone(), path: self.path.clone() }
    }
}

/// The views of a list of references.
pub open spec fn refs(s: Seq<AccessibleRef>) -> Seq<(Seq<char>, Seq<char>)> {
    s.map_values(|r: AccessibleRef| r@)
}

/// Whether `x` is among the first `n` references of `list`.
fn listed_before(list: &Vec<AccessibleRef>, n: usize, x: &AccessibleRef) -> (r: bool)
    requires
        n <= list.len(),
    ensures
        r == refs(list@).take(n as int).contains(x@),
{
    let ghost v = refs(list@).take(n as int);
    for i in 0..n
        invariant
            n <= list.len(),
            v == refs(list@).take(n as int),
            forall|j: int| 0 <= j < i ==> v[j] != x@,
    {
        if list[i].bus == x.bus && list[i].path == x.path {
            assert(v[i as int] == x@);
            return true;
        }
        assert(v[i as int] == list@[i as int]@);
    }
    false
}

/// The targets still to try, in order: those of `found` not in `tried`, each once.
pub open spec fn untried_targets(tried: Seq<(Seq<char>, Seq<char>)>, found: Seq<(Seq<char>, Seq<char>)>) -> Seq<
    (Seq<char>, Seq<char>),
>
    decreases found.len(),
{
    if found.len() == 0 {
        Seq::empty()
    } else {
        let rest = untried_targets(tried, found.drop_last());
        let x = found.last();
        if tried.contains(x) || found.drop_last().contains(x) {
            rest
        } else {
            rest.push(x)
        }
    }
}

/// Of the focused editable controls found from the root, those not tried already under
/// the active window, each once, in the order found.
pub fn remaining_targets(tried: &Vec<AccessibleRef>, found: &Vec<AccessibleRef>) -> (r: Vec<AccessibleRef>)
    ensures
        refs(r@) == untried_targets(refs(tried@), refs(found@)),
{
    let mut out: Vec<AccessibleRef> = Vec::new();
    assert(refs(tried@).take(tried.len() as int) =~= refs(tried@));
    for i in 0..found.len()
        invariant
            refs(out@) == untried_targets(refs(tried@), refs(found@).take(i as int)),
            refs(tried@).take(tried.len() as int) == refs(tried@),
    {
        let ghost f = refs(found@).take(i + 1);
        assert(f.drop_last() =~= refs(found@).take(i as int));
        assert(f.last() == found@[i as int]@);
        let in_tried = listed_before(tried, tried.len(), &found[i]);
        let seen = listed_before(found, i, &found[i]);
        if !in_tried && !seen {
            out.push(found[i].duplicate());
            assert(refs(out@) =~= untried_targets(refs(tried@), f));
        } else {
            assert(refs(out@) =~= untried_targets(refs(tried@), f));
        }
    }
    assert(refs(found@).take(found.len() as int) =~= refs(found@));
    out
}

/// A depth-first walk of the accessibility tree in document order, each object visited
/// once even where the tree repeats it.
pub struct Walk {
    pending: Vec<AccessibleRef>,
    visited: Vec<AccessibleRef>,
}

/// An accessible object as a value: its bus name and object path.
pub type RefView = (Seq<char>, Seq<char>);

/// A walk as values: the objects still to visit (the next one last) and those visited.
#[verifier::ext_equal]
pub struct WalkView {
    pub pending: Seq<RefView>,
    pub visited: Seq<RefView>,
}

impl View for Walk {
    type V = WalkView;

    closed spec fn view(&self) -> WalkView {
        WalkView { pending: refs(self.pending@), visited: refs(self.visited@) }
    }
}

/// `pending` without the already visited objects on its top.
pub open spec fn skip_visited(pending: Seq<(Seq<char>, Seq<char>)>, visited: Seq<(Seq<char>, Seq<char>)>) -> Seq<
    (Seq<char>, Seq<char>),
>
    decreases pending.len(),
{
    if pending.len() > 0 && visited.contains(pending.last()) {
        skip_visited(pending.drop_last(), visited)
    } else {
        pending
    }
}

proof fn lemma_skip_visited_top(pending: Seq<(Seq<char>, Seq<char>)>, visited: Seq<(Seq<char>, Seq<char>)>)
    ensures
        skip_visited(pending, visited).len() > 0 ==> !visited.contains(skip_visited(pending, visited).last()),
    decreases pending.len(),
{
    if pending.len() > 0 && visited.contains(pending.last()) {
        lemma_skip_visited_top(pending.drop_last(), visited);
    }
}

/// One step of a walk: the next object it visits (`None` when it is over) and the walk
/// after it, where that object counts as visited.
pub open spec fn walk_next(w: WalkView) -> (Option<RefView>, WalkView) {
    let p = skip_visited(w.pending, w.visited);
    if p.len() == 0 {
        (None, WalkView { pending: p, visited: w.visited })
    } else {
        (Some(p.last()), WalkView { pending: p.drop_last(), visited: w.visited.push(p.last()) })
    }
}

/// The walk after the children of the object just visited were queued, the first child on
/// top.
pub open spec fn walk_descend(w: WalkView, children: Seq<RefView>) -> WalkView {
    WalkView { pending: w.pending + children.reverse(), visited: w.visited }
}

/// A walk that has just visited `at`, where it starts.
pub open spec fn walk_at(at: RefView) -> WalkView {
    WalkView { pending: Seq::empty(), visited: seq![at] }
}

impl Walk {
    /// A walk that starts at `root`.
    pub fn new(root: AccessibleRef) -> (w: Walk)
        ensures
            w@.pending == seq![root@],
            w@.visited == Seq::<(Seq<char>, Seq<char>)>::empty(),
    {
        let w = Walk { pending: vec![root], visited: Vec::new() };
        assert(w@.pending =~= seq![root@]);
        assert(w@.visited =~= Seq::<(Seq<char>, Seq<char>)>::empty());
        w
    }

    /// The next object to visit, marked visited; `None` when the walk is over. An object
    /// is never handed out twice.
    pub fn next(&mut self) -> (r: Option<AccessibleRef>)
        ensures
            final(self)@ == walk_next(old(self)@).1,
            match r {
                Some(n) => walk_next(old(self)@).0 == Some(n@),
                None => walk_next(old(self)@).0 is None,
            },
            r matches Some(n) ==> !old(self)@.visited.contains(n@),
            old(self)@.visited.no_duplicates() ==> final(self)@.visited.no_duplicates(),
    {
        proof {
            lemma_skip_visited_top(old(self)@.pending, old(self)@.visited);
        }
        let ghost target = skip_visited(old(self)@.pending, old(self)@.visited);
        loop
            invariant
                self@.visited == old(self)@.visited,
                skip_visited(self@.pending, self@.visited) == target,
                target == skip_visited(old(self)@.pending, old(self)@.visited),
                target.len() > 0 ==> !old(self)@.visited.contains(target.last()),
            decreases self.pending.len(),
        {
            let ghost before = self@.pending;
            match self.pending.pop() {
                None => {
                    assert(self@.pending =~= before);
                    assert(before.len() == 0);
                    assert(skip_visited(before, self@.visited) == before);
                    assert(self@ =~= walk_next(old(self)@).1);
                    return None;
                },
                Some(n) => {
                    assert(self@.pending =~= before.drop_last());
                    assert(n@ == before.last());
                    if listed_before(&self.visited, self.visited.len(), &n) {
                        assert(refs(self.visited@).take(self.visited.len() as int) =~= refs(self.visited@));
                        assert(self@.visited.contains(before.last()));
                        assert(skip_visited(before, self@.visited) == skip_visited(
                            before.drop_last(),
                            self@.visited,
                        ));
                    } else {
                        assert(refs(self.visited@).take(self.visited.len() as int) =~= refs(self.visited@));
                        assert(!self@.visited.contains(before.last()));
                        assert(skip_visited(before, self@.visited) == before);
                        let ghost vis = self@.visited;
                        self.visited.push(n.duplicate());
                        assert(self@.visited =~= vis.push(n@));
                        assert(self@ =~= walk_next(old(self)@).1);
                        return Some(n);
                    }
                },
            }
        }
    }

    /// Queues the children of the object just visited, so that the first child is visited
    /// next and its subtree before its siblings.
    pub fn descend(&mut self, children: Vec<AccessibleRef>)
        ensures
            final(self)@ == walk_descend(old(self)@, refs(children@)),
    {
        let mut k = children.len();
        while k > 0
            invariant
                k <= children.len(),
                self@.visited == old(self)@.visited,
                self@.pending == old(self)@.pending + refs(children@).subrange(k as int, children.len() as int).reverse(),
            decreases k,
        {
            k = k - 1;
            let ghost before = self@.pending;
            self.pending.push(children[k].duplicate());
            assert(self@.pending =~= before.push(children@[k as int]@));
            assert(refs(children@).subrange(k as int, children.len() as int).reverse() =~= refs(
                children@,
            ).subrange(k + 1, children.len() as int).reverse().push(children@[k as int]@));
            assert(self@.pending =~= old(self)@.pending + refs(children@).subrange(k as int, children.len() as int).reverse());
        }
        assert(refs(children@).subrange(0, children.len() as int) =~= refs(children@));
        assert(self@ =~= walk_descend(old(self)@, refs(children@)));
    }

    /// A walk that has just visited `at`, where it starts.
    fn at(at: AccessibleRef) -> (w: Walk)
        ensures
            w@ == walk_at(at@),
    {
        let ghost a = at@;
        let w = Walk { pending: Vec::new(), visited: vec![at] };
        assert(w@ =~= walk_at(a));
        w
    }
}


/// Which part of the accessibility tree a target search is in: under the active window,
/// or the whole tree from its root.
#[derive(Clone, Copy, Debug, PartialEq, Eq)]
pub enum Scope {
    Active,
    Root,
}

/// What a target search waits for.
#[derive(Clone, Copy, Debug, PartialEq, Eq)]
pub enum Stage {
    /// The state of the current object, to tell whether it is the active window.
    FindState,
    /// The children of the current object, which is not the active window.
    FindChildren,
    /// The state of the current object, to tell whether it has the focus.
    CollectState,
    /// The interfaces of the focused current object, to tell whether its text is editable.
    CollectInterfaces,
    /// The children of the current object.
    CollectChildren,
    /// The outcome of inserting the text into the target at the current index.
    Try,
    /// Nothing more: the search is over.
    Done,
}

/// What the caller learnt from the bus about the object the search asked for.
#[derive(Debug)]
pub enum SearchEvent {
    /// Its AT-SPI state set (empty when the call failed).
    State(Vec<u32>),
    /// The names of its interfaces (empty when the call failed).
    Interfaces(Vec<String>),
    /// Its children, in order (empty when the call failed).
    Children(Vec<AccessibleRef>),
    /// Whether inserting the text into it was confirmed by reading it back, or the bus error.
    Inserted(Result<bool, String>),
}

/// A search event as values.
pub enum SearchEventView {
    State(Seq<u32>),
    Interfaces(Seq<Seq<char>>),
    Children(Seq<RefView>),
    Inserted(Result<bool, Seq<char>>),
}

impl View for SearchEvent {
    type V = SearchEventView;

    open spec fn view(&self) -> SearchEventView {
        match self {
            SearchEvent::State(s) => SearchEventView::State(s@),
            SearchEvent::Interfaces(i) => SearchEventView::Interfaces(i.deep_view()),
            SearchEvent::Children(c) => SearchEventView::Children(refs(c@)),
            SearchEvent::Inserted(r) => SearchEventView::Inserted(
                match r {
                    Ok(b) => Ok(*b),
                    Err(e) => Err(e@),
                },
            ),
        }
    }
}

/// What a target search asks the caller to do next.
#[derive(Debug, PartialEq, Eq)]
pub enum SearchAction {
    /// Read the AT-SPI state set of this object.
    QueryState(AccessibleRef),
    /// Read the interface names of this object.
    QueryInterfaces(AccessibleRef),
    /// Read the children of this object.
    QueryChildren(AccessibleRef),
    /// Insert the text at the caret of this object and read it back.
    TryInsert(AccessibleRef),
    /// Stop: typing through the bus ended with this outcome.
    Finish(Result<(), String>),
}

/// A search action as values.
pub enum SearchActionView {
    QueryState(RefView),
    QueryInterfaces(RefView),
    QueryChildren(RefView),
    TryInsert(RefView),
    Finish(Result<(), Seq<char>>),
}

/// An outcome as values.
pub open spec fn outcome_view(r: Result<(), String>) -> Result<(), Seq<char>> {
    match r {
        Ok(_) => Ok(()),
        Err(e) => Err(e@),
    }
}

impl View for SearchAction {
    type V = SearchActionView;

    open spec fn view(&self) -> SearchActionView {
        match self {
            SearchAction::QueryState(r) => SearchActionView::QueryState(r@),
            SearchAction::QueryInterfaces(r) => SearchActionView::QueryInterfaces(r@),
            SearchAction::QueryChildren(r) => SearchActionView::QueryChildren(r@),
            SearchAction::TryInsert(r) => SearchActionView::TryInsert(r@),
            SearchAction::Finish(r) => SearchActionView::Finish(outcome_view(*r)),
        }
    }
}

/// A target search as values.
#[verifier::ext_equal]
pub struct SearchView {
    pub stage: Stage,
    pub scope: Scope,
    /// The root of the accessibility tree.
    pub root: RefView,
    /// The object whose state, interfaces or children are asked for.
    pub current: RefView,
    /// The walk of the part of the tree being searched.
    pub walk: WalkView,
    /// The focused editable objects met so far in that part, in document order.
    pub found: Seq<RefView>,
    /// Every object the text was offered to, in order.
    pub tried: Seq<RefView>,
    /// The objects to offer the text to in this part of the tree, in order.
    pub targets: Seq<RefView>,
    /// Where the search stands in `targets`.
    pub index: int,
    /// The outcome, once the search is over.
    pub outcome: Result<(), Seq<char>>,
}

/// The search that starts at the root `root`, looking for the active window.
pub open spec fn search_start(root: RefView) -> SearchView {
    SearchView {
        stage: Stage::FindState,
        scope: Scope::Active,
        root,
        current: root,
        walk: walk_at(root),
        found: Seq::empty(),
        tried: Seq::empty(),
        targets: Seq::empty(),
        index: 0,
        outcome: Ok(()),
    }
}

/// The search that starts collecting focused editable objects in the part of the tree
/// under `at`, beginning with `at` itself.
pub open spec fn start_collect(v: SearchView, scope: Scope, at: RefView) -> SearchView {
    SearchView {
        stage: Stage::CollectState,
        scope,
        current: at,
        walk: walk_at(at),
        found: Seq::empty(),
        ..v
    }
}

/// The search that turns to the whole tree.
pub open spec fn start_root(v: SearchView) -> SearchView {
    start_collect(v, Scope::Root, v.root)
}

/// The search that is over with `outcome`.
pub open spec fn finish(v: SearchView, outcome: Result<(), Seq<char>>) -> SearchView {
    SearchView { stage: Stage::Done, outcome, ..v }
}

/// The search once the tree is exhausted in the part under search: under the active window
/// every focused editable object found is a target; in the whole tree those not yet tried.
/// Without targets, the whole tree is searched next, or the search fails.
pub open spec fn start_try(v: SearchView) -> SearchView {
    let t = if v.scope == Scope::Active {
        v.found
    } else {
        untried_targets(v.tried, v.found)
    };
    if t.len() > 0 {
        SearchView { stage: Stage::Try, targets: t, index: 0, tried: v.tried.push(t[0]), ..v }
    } else if v.scope == Scope::Active {
        start_root(v)
    } else {
        finish(v, Err(NO_EDITABLE_TARGET@))
    }
}

/// The search for the active window, moved on to the next object of the walk; when there
/// is none, no window is active and the whole tree is searched.
pub open spec fn find_advance(v: SearchView) -> SearchView {
    let (n, w) = walk_next(v.walk);
    match n {
        Some(x) => SearchView { stage: Stage::FindState, current: x, walk: w, ..v },
        None => start_root(v),
    }
}

/// The collection, moved on to the next object of the walk; when there is none, the
/// targets are tried.
pub open spec fn collect_advance(v: SearchView) -> SearchView {
    let (n, w) = walk_next(v.walk);
    match n {
        Some(x) => SearchView { stage: Stage::CollectState, current: x, walk: w, ..v },
        None => start_try(SearchView { walk: w, ..v }),
    }
}

/// The search after the current target did not take the text: the next target, else the
/// whole tree, else failure.
pub open spec fn after_refusal(v: SearchView) -> SearchView {
    if v.index + 1 < v.targets.len() {
        SearchView { index: v.index + 1, tried: v.tried.push(v.targets[v.index + 1]), ..v }
    } else if v.scope == Scope::Active {
        start_root(v)
    } else {
        finish(v, Err(NO_EDITABLE_TARGET@))
    }
}

/// The search after the event `ev`; an event that does not answer what the search asked
/// for leaves it as it is.
pub open spec fn search_next(v: SearchView, ev: SearchEventView) -> SearchView {
    match ev {
        SearchEventView::State(s) => match v.stage {
            Stage::FindState => if state_bit(s, STATE_ACTIVE) {
                start_collect(v, Scope::Active, v.current)
            } else {
                SearchView { stage: Stage::FindChildren, ..v }
            },
            Stage::CollectState => if state_bit(s, STATE_FOCUSED) {
                SearchView { stage: Stage::CollectInterfaces, ..v }
            } else {
                SearchView { stage: Stage::CollectChildren, ..v }
            },
            _ => v,
        },
        SearchEventView::Interfaces(i) => match v.stage {
            Stage::CollectInterfaces => SearchView {
                stage: Stage::CollectChildren,
                found: if lists_editable_text(i) {
                    v.found.push(v.current)
                } else {
                    v.found
                },
                ..v
            },
            _ => v,
        },
        SearchEventView::Children(c) => match v.stage {
            Stage::FindChildren => find_advance(SearchView { walk: walk_descend(v.walk, c), ..v }),
            Stage::CollectChildren => collect_advance(
                SearchView { walk: walk_descend(v.walk, c), ..v },
            ),
            _ => v,
        },
        SearchEventView::Inserted(r) => match v.stage {
            Stage::Try => match r {
                Ok(true) => finish(v, Ok(())),
                Ok(false) => after_refusal(v),
                Err(e) => finish(v, Err(e)),
            },
            _ => v,
        },
    }
}

/// What the search `v` asks for.
pub open spec fn search_request(v: SearchView) -> SearchActionView {
    match v.stage {
        Stage::FindState | Stage::CollectState => SearchActionView::QueryState(v.current),
        Stage::CollectInterfaces => SearchActionView::QueryInterfaces(v.current),
        Stage::FindChildren | Stage::CollectChildren => SearchActionView::QueryChildren(v.current),
        Stage::Try => SearchActionView::TryInsert(v.targets[v.index]),
        Stage::Done => SearchActionView::Finish(v.outcome),
    }
}

/// One step of the search: the search after `ev`, and what it asks for next.
pub open spec fn search_step(v: SearchView, ev: SearchEventView) -> (SearchView, SearchActionView) {
    (search_next(v, ev), search_request(search_next(v, ev)))
}

/// Whether `ev` answers what a search at `stage` asks for.
pub open spec fn answers(stage: Stage, ev: SearchEventView) -> bool {
    match ev {
        SearchEventView::State(_) => stage == Stage::FindState || stage == Stage::CollectState,
        SearchEventView::Interfaces(_) => stage == Stage::CollectInterfaces,
        SearchEventView::Children(_) => stage == Stage::FindChildren || stage == Stage::CollectChildren,
        SearchEventView::Inserted(_) => stage == Stage::Try,
    }
}

/// Whether `stage` is one of the collecting stages.
pub open spec fn collecting(stage: Stage) -> bool {
    stage == Stage::CollectState || stage == Stage::CollectInterfaces || stage == Stage::CollectChildren
}

/// The invariant of a search: nothing is offered the text twice, the current target is
/// the last one offered it and no later target was offered it yet; while looking for the
/// active window nothing was tried; what was found is distinct and visited.
pub open spec fn search_wf(v: SearchView) -> bool {
    &&& v.tried.no_duplicates()
    &&& v.targets.no_duplicates()
    &&& v.stage == Stage::Try ==> {
        &&& 0 <= v.index < v.targets.len()
        &&& v.tried.len() > 0
        &&& v.tried.last() == v.targets[v.index]
        &&& forall|j: int| v.index < j < v.targets.len() ==> !v.tried.contains(#[trigger] v.targets[j])
    }
    &&& (v.stage == Stage::FindState || v.stage == Stage::FindChildren) ==> v.scope == Scope::Active
        && v.tried.len() == 0
    &&& collecting(v.stage) && v.scope == Scope::Active ==> v.tried.len() == 0
    &&& collecting(v.stage) ==> {
        &&& v.found.no_duplicates()
        &&& forall|i: int| 0 <= i < v.found.len() ==> v.walk.visited.contains(#[trigger] v.found[i])
    }
    &&& (v.stage == Stage::CollectState || v.stage == Stage::CollectInterfaces) ==> {
        &&& v.walk.visited.contains(v.current)
        &&& !v.found.contains(v.current)
    }
}

/// What `walk_next` keeps: an object handed out was not visited before and is visited
/// after; when none is, the visited objects stay.
proof fn lemma_walk_next(w: WalkView)
    ensures
        walk_next(w).0 matches Some(x) ==> !w.visited.contains(x) && walk_next(w).1.visited
            == w.visited.push(x),
        walk_next(w).0 is None ==> walk_next(w).1.visited == w.visited,
{
    lemma_skip_visited_top(w.pending, w.visited);
}

/// The targets left from the whole tree are distinct, found there, and not tried already.
proof fn lemma_untried_targets(tried: Seq<RefView>, found: Seq<RefView>)
    ensures
        untried_targets(tried, found).no_duplicates(),
        forall|i: int|
            0 <= i < untried_targets(tried, found).len() ==> !tried.contains(
                #[trigger] untried_targets(tried, found)[i],
            ) && found.contains(untried_targets(tried, found)[i]),
    decreases found.len(),
{
    if found.len() > 0 {
        let rest = untried_targets(tried, found.drop_last());
        lemma_untried_targets(tried, found.drop_last());
        assert forall|i: int| 0 <= i < rest.len() implies found.contains(#[trigger] rest[i]) by {
            let k = choose|k: int| 0 <= k < found.drop_last().len() && found.drop_last()[k] == rest[i];
            assert(found[k] == rest[i]);
        }
        let x = found.last();
        if !(tried.contains(x) || found.drop_last().contains(x)) {
            assert(found[found.len() - 1] == x);
            assert forall|i: int| 0 <= i < rest.len() implies rest[i] != x by {
                let k = choose|k: int| 0 <= k < found.drop_last().len() && found.drop_last()[k] == rest[i];
            }
        }
    }
}

/// A copy of a list of references.
fn copy_refs(v: &Vec<AccessibleRef>) -> (r: Vec<AccessibleRef>)
    ensures
        refs(r@) == refs(v@),
{
    let mut r: Vec<AccessibleRef> = Vec::new();
    for i in 0..v.len()
        invariant
            refs(r@) == refs(v@).take(i as int),
    {
        let ghost before = r@;
        let d = v[i].duplicate();
        r.push(d);
        assert(refs(r@) =~= refs(before).push(v@[i as int]@));
        assert(refs(v@).take(i + 1) =~= refs(v@).take(i as int).push(v@[i as int]@));
    }
    assert(refs(v@).take(v.len() as int) =~= refs(v@));
    r
}

/// A copy of an outcome.
fn copy_outcome(r: &Result<(), String>) -> (c: Result<(), String>)
    ensures
        outcome_view(c) == outcome_view(*r),
{
    match r {
        Ok(()) => Ok(()),
        Err(e) => Err(e.clone()),
    }
}

/// The search for the controls to type into over the accessibility bus: first the focused
/// editable controls under the active window, in document order, then those elsewhere in
/// the tree not tried yet, each until one confirms the insertion. The caller performs what
/// it asks for and hands back what it learnt.
pub struct TargetSearch {
    stage: Stage,
    scope: Scope,
    root: AccessibleRef,
    current: AccessibleRef,
    walk: Walk,
    found: Vec<AccessibleRef>,
    tried: Vec<AccessibleRef>,
    targets: Vec<AccessibleRef>,
    index: usize,
    outcome: Result<(), String>,
}

impl View for TargetSearch {
    type V = SearchView;

    closed spec fn view(&self) -> SearchView {
        SearchView {
            stage: self.stage,
            scope: self.scope,
            root: self.root@,
            current: self.current@,
            walk: self.walk@,
            found: refs(self.found@),
            tried: refs(self.tried@),
            targets: refs(self.targets@),
            index: self.index as int,
            outcome: outcome_view(self.outcome),
        }
    }
}

impl TargetSearch {
    /// The search that starts at the root `root` of the accessibility tree.
    pub fn new(root: AccessibleRef) -> (s: TargetSearch)
        ensures
            s@ == search_start(root@),
            search_wf(s@),
    {
        let ghost r = root@;
        let s = TargetSearch {
            stage: Stage::FindState,
            scope: Scope::Active,
            current: root.duplicate(),
            walk: Walk::at(root.duplicate()),
            root,
            found: Vec::new(),
            tried: Vec::new(),
            targets: Vec::new(),
            index: 0,
            outcome: Ok(()),
        };
        assert(s@ =~= search_start(r));
        s
    }

    /// What the search asks for now.
    pub fn request(&self) -> (a: SearchAction)
        requires
            search_wf(self@),
        ensures
            a@ == search_request(self@),
    {
        match self.stage {
            Stage::FindState => SearchAction::QueryState(self.current.duplicate()),
            Stage::CollectState => SearchAction::QueryState(self.current.duplicate()),
            Stage::CollectInterfaces => SearchAction::QueryInterfaces(self.current.duplicate()),
            Stage::FindChildren => SearchAction::QueryChildren(self.current.duplicate()),
            Stage::CollectChildren => SearchAction::QueryChildren(self.current.duplicate()),
            Stage::Try => SearchAction::TryInsert(self.targets[self.index].duplicate()),
            Stage::Done => SearchAction::Finish(copy_outcome(&self.outcome)),
        }
    }

    fn start_collect(&mut self, scope: Scope, at: AccessibleRef)
        ensures
            final(self)@ == start_collect(old(self)@, scope, at@),
    {
        let ghost a = at@;
        self.walk = Walk::at(at.duplicate());
        self.current = at;
        self.stage = Stage::CollectState;
        self.scope = scope;
        self.found = Vec::new();
        assert(self@ =~= start_collect(old(self)@, scope, a));
    }

    fn start_root(&mut self)
        ensures
            final(self)@ == start_root(old(self)@),
    {
        let r = self.root.duplicate();
        self.start_collect(Scope::Root, r);
    }

    fn finish(&mut self, outcome: Result<(), String>)
        ensures
            final(self)@ == finish(old(self)@, outcome_view(outcome)),
    {
        let ghost o = outcome_view(outcome);
        self.stage = Stage::Done;
        self.outcome = outcome;
        assert(self@ =~= finish(old(self)@, o));
    }

    fn start_try(&mut self)
        ensures
            final(self)@ == start_try(old(self)@),
    {
        let t = match self.scope {
            Scope::Active => copy_refs(&self.found),
            Scope::Root => remaining_targets(&self.tried, &self.found),
        };
        if t.len() > 0 {
            let ghost before = self.tried@;
            let first = t[0].duplicate();
            self.tried.push(first);
            assert(refs(self.tried@) =~= refs(before).push(refs(t@)[0]));
            self.targets = t;
            self.index = 0;
            self.stage = Stage::Try;
            assert(self@ =~= start_try(old(self)@));
        } else {
            match self.scope {
                Scope::Active => self.start_root(),
                Scope::Root => self.finish(Err(String::from_str(NO_EDITABLE_TARGET))),
            }
        }
    }

    fn find_advance(&mut self)
        ensures
            final(self)@ == find_advance(old(self)@),
    {
        match self.walk.next() {
            Some(n) => {
                self.current = n;
                self.stage = Stage::FindState;
                assert(self@ =~= find_advance(old(self)@));
            },
            None => self.start_root(),
        }
    }

    fn collect_advance(&mut self)
        ensures
            final(self)@ == collect_advance(old(self)@),
    {
        match self.walk.next() {
            Some(n) => {
                self.current = n;
                self.stage = Stage::CollectState;
                assert(self@ =~= collect_advance(old(self)@));
            },
            None => {
                assert(self@ =~= SearchView { walk: walk_next(old(self)@.walk).1, ..old(self)@ });
                self.start_try();
            },
        }
    }

    fn after_refusal(&mut self)
        ensures
            final(self)@ == after_refusal(old(self)@),
    {
        if self.index < self.targets.len() && self.index + 1 < self.targets.len() {
            self.index = self.index + 1;
            let ghost before = self.tried@;
            let t = self.targets[self.index].duplicate();
            self.tried.push(t);
            assert(refs(self.tried@) =~= refs(before).push(refs(self.targets@)[self.index as int]));
            assert(self@ =~= after_refusal(old(self)@));
        } else {
            match self.scope {
                Scope::Active => self.start_root(),
                Scope::Root => self.finish(Err(String::from_str(NO_EDITABLE_TARGET))),
            }
        }
    }

    /// Takes what the caller learnt, `ev`, and says what to do next.
    pub fn step(&mut self, ev: SearchEvent) -> (a: SearchAction)
        requires
            search_wf(old(self)@),
        ensures
            (final(self)@, a@) == search_step(old(self)@, ev@),
            search_wf(final(self)@),
    {
        let ghost e = ev@;
        match ev {
            SearchEvent::State(s) => match self.stage {
                Stage::FindState => {
                    if has_state(&s, STATE_ACTIVE) {
                        let c = self.current.duplicate();
                        self.start_collect(Scope::Active, c);
                    } else {
                        self.stage = Stage::FindChildren;
                    }
                },
                Stage::CollectState => {
                    if has_state(&s, STATE_FOCUSED) {
                        self.stage = Stage::CollectInterfaces;
                    } else {
                        self.stage = Stage::CollectChildren;
                    }
                },
                _ => {},
            },
            SearchEvent::Interfaces(i) => match self.stage {
                Stage::CollectInterfaces => {
                    if has_editable_text(&i) {
                        let ghost before = self.found@;
                        let c = self.current.duplicate();
                        self.found.push(c);
                        assert(refs(self.found@) =~= refs(before).push(self.current@));
                    }
                    self.stage = Stage::CollectChildren;
                },
                _ => {},
            },
            SearchEvent::Children(c) => match self.stage {
                Stage::FindChildren => {
                    self.walk.descend(c);
                    self.find_advance();
                },
                Stage::CollectChildren => {
                    self.walk.descend(c);
                    self.collect_advance();
                },
                _ => {},
            },
            SearchEvent::Inserted(r) => match self.stage {
                Stage::Try => match r {
                    Ok(b) => {
                        if b {
                            self.finish(Ok(()));
                        } else {
                            self.after_refusal();
                        }
                    },
                    Err(msg) => self.finish(Err(msg)),
                },
                _ => {},
            },
        }
        assert(self@ =~= search_next(old(self)@, e));
        proof {
            lemma_search_keeps_wf(old(self)@, e);
        }
        self.request()
    }
}

/// The invariant holds at the start of every search.
pub proof fn lemma_search_start_wf(root: RefView)
    ensures
        search_wf(search_start(root)),
{
}

/// Every step keeps the invariant of a search.
pub proof fn lemma_search_keeps_wf(v: SearchView, ev: SearchEventView)
    requires
        search_wf(v),
    ensures
        search_wf(search_next(v, ev)),
{
    lemma_walk_next(v.walk);
    lemma_walk_at(v.root);
    lemma_walk_at(v.current);
    lemma_untried_targets(v.tried, v.found);
    match ev {
        SearchEventView::Children(c) => {
            let w = walk_descend(v.walk, c);
            lemma_walk_next(w);
            let v1 = SearchView { walk: w, ..v };
            if v.stage == Stage::CollectChildren {
                match walk_next(w).0 {
                    Some(x) => {
                        let v2 = collect_advance(v1);
                        assert forall|i: int| 0 <= i < v2.found.len() implies v2.walk.visited.contains(
                            #[trigger] v2.found[i],
                        ) by {
                            assert(v.walk.visited.contains(v.found[i]));
                            let k = choose|k: int| 0 <= k < v.walk.visited.len() && v.walk.visited[k] == v.found[i];
                            assert(v2.walk.visited[k] == v.found[i]);
                        }
                        assert(v2.walk.visited[v2.walk.visited.len() - 1] == x);
                        assert(!v2.found.contains(x)) by {
                            if v2.found.contains(x) {
                                let k = choose|k: int| 0 <= k < v.found.len() && v.found[k] == x;
                                assert(v.walk.visited.contains(v.found[k]));
                            }
                        }
                    },
                    None => {
                        let v2 = SearchView { walk: walk_next(w).1, ..v1 };
                        lemma_start_try_wf(v2);
                    },
                }
            }
        },
        _ => {},
    }
}

/// A walk that starts at `at` has visited it.
proof fn lemma_walk_at(at: RefView)
    ensures
        walk_at(at).visited.contains(at),
{
    assert(walk_at(at).visited[0] == at);
}

/// Starting to try the targets keeps the invariant.
proof fn lemma_start_try_wf(v: SearchView)
    requires
        v.tried.no_duplicates(),
        v.targets.no_duplicates(),
        v.found.no_duplicates(),
        v.scope == Scope::Active ==> v.tried.len() == 0,
    ensures
        search_wf(start_try(v)),
{
    lemma_untried_targets(v.tried, v.found);
    lemma_walk_at(v.root);
    let t = if v.scope == Scope::Active {
        v.found
    } else {
        untried_targets(v.tried, v.found)
    };
    if t.len() > 0 {
        let v2 = start_try(v);
        assert(v2.tried == v.tried.push(t[0]));
        assert(!v.tried.contains(t[0]));
        assert(v2.tried.no_duplicates()) by {
            assert forall|a: int, b: int| 0 <= a < b < v2.tried.len() implies v2.tried[a] != v2.tried[b] by {
                if b == v.tried.len() {
                    assert(v.tried[a] == v2.tried[a]);
                } else {
                    assert(v.tried[a] == v2.tried[a] && v.tried[b] == v2.tried[b]);
                }
            }
        }
        assert forall|j: int| 0 < j < t.len() implies !v2.tried.contains(#[trigger] t[j]) by {
            if v2.tried.contains(t[j]) {
                let k = choose|k: int| 0 <= k < v2.tried.len() && v2.tried[k] == t[j];
                if k < v.tried.len() {
                    assert(v.tried.contains(t[j]));
                }
            }
        }
    }
}


/// Once over, a search stays over: every event leaves it as it is, and it keeps answering
/// with its outcome, so that no insertion follows.
pub proof fn lemma_search_done_is_final(v: SearchView, ev: SearchEventView)
    requires
        v.stage == Stage::Done,
    ensures
        search_step(v, ev) == (v, SearchActionView::Finish(v.outcome)),
{
}

/// A search that is not over finishes with success exactly when the target it offered the
/// text to confirmed the insertion.
pub proof fn lemma_search_succeeds_on_confirmation(v: SearchView, ev: SearchEventView)
    requires
        v.stage != Stage::Done,
    ensures
        search_step(v, ev).1 == SearchActionView::Finish(Ok(())) <==> (v.stage == Stage::Try && ev
            == SearchEventView::Inserted(Ok(true))),
{
}

/// A bus error while inserting ends the search with that error.
pub proof fn lemma_search_bus_error_finishes(v: SearchView, e: Seq<char>)
    requires
        v.stage == Stage::Try,
    ensures
        search_step(v, SearchEventView::Inserted(Err(e))).1 == SearchActionView::Finish(Err(e)),
{
}

/// An event that does not answer what the search asked for changes nothing, and the
/// request is repeated.
pub proof fn lemma_search_ignores_unasked(v: SearchView, ev: SearchEventView)
    requires
        !answers(v.stage, ev),
    ensures
        search_step(v, ev) == (v, search_request(v)),
{
}

/// No control is offered the text twice: each insertion the search asks for names a
/// control never offered it before and is recorded as offered; every other step records
/// nothing.
pub proof fn lemma_search_tries_each_once(v: SearchView, ev: SearchEventView)
    requires
        search_wf(v),
        answers(v.stage, ev),
    ensures
        match search_step(v, ev).1 {
            SearchActionView::TryInsert(t) => !v.tried.contains(t) && search_step(v, ev).0.tried
                == v.tried.push(t),
            _ => search_step(v, ev).0.tried == v.tried,
        },
{
    lemma_search_keeps_wf(v, ev);
    let n = search_next(v, ev);
    if n.stage == Stage::Try {
        let t = n.targets[n.index];
        assert(n.tried.last() == t);
        if n.tried == v.tried.push(t) && v.tried.contains(t) {
            let k = choose|k: int| 0 <= k < v.tried.len() && v.tried[k] == t;
            assert(n.tried[k] == n.tried[n.tried.len() - 1]);
        }
    }
}

/// The controls under the active window come first: a search starts there, turns to the
/// whole tree only when no window is active, when none of them is focused and editable, or
/// after the last of them refused the text, and never turns back.
pub proof fn lemma_search_active_window_first(v: SearchView, ev: SearchEventView)
    requires
        search_wf(v),
    ensures
        search_start(v.root).scope == Scope::Active,
        v.scope == Scope::Root ==> search_next(v, ev).scope == Scope::Root,
        v.scope == Scope::Active && v.stage == Stage::Try && search_next(v, ev).scope == Scope::Root
            ==> ev == SearchEventView::Inserted(Ok(false)) && v.index + 1 == v.targets.len(),
{
}


/// The search stays within `nodes`, a finite set of objects that holds the root: every
/// object it has met or will visit is one of them, and none was visited twice.
pub open spec fn search_within(v: SearchView, nodes: Set<RefView>) -> bool {
    &&& nodes.finite()
    &&& nodes.contains(v.root)
    &&& nodes.contains(v.current)
    &&& v.walk.visited.no_duplicates()
    &&& forall|i: int| 0 <= i < v.walk.visited.len() ==> nodes.contains(#[trigger] v.walk.visited[i])
    &&& forall|i: int| 0 <= i < v.walk.pending.len() ==> nodes.contains(#[trigger] v.walk.pending[i])
}

/// The event names only objects of `nodes` as children.
pub open spec fn children_within(ev: SearchEventView, nodes: Set<RefView>) -> bool {
    ev matches SearchEventView::Children(c) ==> forall|i: int| 0 <= i < c.len() ==> nodes.contains(
        #[trigger] c[i],
    )
}

/// How far a search within `nodes` is from its end: the part it is in (looking for the
/// active window, collecting and trying under it, collecting and trying in the whole
/// tree, over), then the objects of `nodes` not yet visited in that part (or the targets
/// not yet tried), then what is still to be asked of the current object.
pub open spec fn search_measure(v: SearchView, nodes: Set<RefView>) -> (nat, nat, nat) {
    let left = (nodes.len() - v.walk.visited.len()) as nat;
    let collect_part: nat = if v.scope == Scope::Active {
        4
    } else {
        2
    };
    let try_part: nat = if v.scope == Scope::Active {
        3
    } else {
        1
    };
    match v.stage {
        Stage::FindState => (5, left, 1),
        Stage::FindChildren => (5, left, 0),
        Stage::CollectState => (collect_part, left, 2),
        Stage::CollectInterfaces => (collect_part, left, 1),
        Stage::CollectChildren => (collect_part, left, 0),
        Stage::Try => (try_part, (v.targets.len() - v.index) as nat, 0),
        Stage::Done => (0, 0, 0),
    }
}

/// Lexicographic order on measures.
pub open spec fn measure_below(a: (nat, nat, nat), b: (nat, nat, nat)) -> bool {
    a.0 < b.0 || (a.0 == b.0 && (a.1 < b.1 || (a.1 == b.1 && a.2 < b.2)))
}

/// A list without repeats drawn from a finite set is no longer than the set.
proof fn lemma_distinct_within(s: Seq<RefView>, nodes: Set<RefView>)
    requires
        s.no_duplicates(),
        nodes.finite(),
        forall|i: int| 0 <= i < s.len() ==> nodes.contains(#[trigger] s[i]),
    ensures
        s.len() <= nodes.len(),
{
    broadcast use vstd::seq_lib::group_seq_properties;

    s.unique_seq_to_set();
    assert(s.to_set().subset_of(nodes)) by {
        assert forall|x: RefView| s.to_set().contains(x) implies nodes.contains(x) by {
            let k = choose|k: int| 0 <= k < s.len() && s[k] == x;
        }
    }
    vstd::set_lib::lemma_len_subset(s.to_set(), nodes);
}

/// What remains of the pending objects after skipping visited ones is a prefix of them.
proof fn lemma_skip_visited_prefix(pending: Seq<RefView>, visited: Seq<RefView>)
    ensures
        skip_visited(pending, visited).len() <= pending.len(),
        forall|i: int|
            0 <= i < skip_visited(pending, visited).len() ==> #[trigger] skip_visited(pending, visited)[i]
                == pending[i],
    decreases pending.len(),
{
    if pending.len() > 0 && visited.contains(pending.last()) {
        lemma_skip_visited_prefix(pending.drop_last(), visited);
    }
}

/// One step of a walk within `nodes` stays within them, and visits one more of them.
proof fn lemma_walk_next_within(w: WalkView, nodes: Set<RefView>)
    requires
        nodes.finite(),
        w.visited.no_duplicates(),
        forall|i: int| 0 <= i < w.visited.len() ==> nodes.contains(#[trigger] w.visited[i]),
        forall|i: int| 0 <= i < w.pending.len() ==> nodes.contains(#[trigger] w.pending[i]),
    ensures
        ({
            let (n, w2) = walk_next(w);
            &&& w2.visited.no_duplicates()
            &&& forall|i: int| 0 <= i < w2.visited.len() ==> nodes.contains(#[trigger] w2.visited[i])
            &&& forall|i: int| 0 <= i < w2.pending.len() ==> nodes.contains(#[trigger] w2.pending[i])
            &&& w.visited.len() <= nodes.len()
            &&& n matches Some(x) ==> nodes.contains(x) && w2.visited.len() == w.visited.len() + 1
                && w2.visited.len() <= nodes.len()
        }),
{
    lemma_walk_next(w);
    lemma_skip_visited_prefix(w.pending, w.visited);
    lemma_skip_visited_top(w.pending, w.visited);
    lemma_distinct_within(w.visited, nodes);
    let p = skip_visited(w.pending, w.visited);
    let (n, w2) = walk_next(w);
    if p.len() > 0 {
        assert(p.last() == w.pending[p.len() - 1]);
        assert(w2.visited.no_duplicates()) by {
            assert forall|a: int, b: int| 0 <= a < b < w2.visited.len() implies w2.visited[a]
                != w2.visited[b] by {
                if b == w.visited.len() {
                    assert(w.visited.contains(w.visited[a]));
                }
            }
        }
        assert forall|i: int| 0 <= i < w2.visited.len() implies nodes.contains(#[trigger] w2.visited[i]) by {
            if i < w.visited.len() {
                assert(w2.visited[i] == w.visited[i]);
            }
        }
        assert forall|i: int| 0 <= i < w2.pending.len() implies nodes.contains(#[trigger] w2.pending[i]) by {
            assert(w2.pending[i] == p[i]);
        }
        lemma_distinct_within(w2.visited, nodes);
    } else {
        assert(w2.pending.len() == 0);
    }
}

/// A search starts within any finite set of objects that holds its root.
pub proof fn lemma_search_start_within(root: RefView, nodes: Set<RefView>)
    requires
        nodes.finite(),
        nodes.contains(root),
    ensures
        search_within(search_start(root), nodes),
{
    assert(walk_at(root).visited[0] == root);
}

/// Starting a new part of the search at `at` stays within `nodes`.
proof fn lemma_start_collect_within(v: SearchView, scope: Scope, at: RefView, nodes: Set<RefView>)
    requires
        nodes.finite(),
        nodes.contains(v.root),
        nodes.contains(at),
    ensures
        search_within(start_collect(v, scope, at), nodes),
{
    assert(walk_at(at).visited[0] == at);
}

/// The search ends: as long as the objects it meets are drawn from a finite set (cycles in
/// the tree allowed), every answer moves it strictly closer to its end, in an order with no
/// infinite descent, and keeps it within that set. A search that is not over always asks
/// for something, so after finitely many answers it is over.
pub proof fn lemma_search_progress(v: SearchView, ev: SearchEventView, nodes: Set<RefView>)
    requires
        search_wf(v),
        search_within(v, nodes),
        answers(v.stage, ev),
        children_within(ev, nodes),
    ensures
        search_within(search_next(v, ev), nodes),
        measure_below(search_measure(search_next(v, ev), nodes), search_measure(v, nodes)),
{
    lemma_start_collect_within(v, Scope::Active, v.current, nodes);
    lemma_start_collect_within(v, Scope::Root, v.root, nodes);
    lemma_distinct_within(v.walk.visited, nodes);
    match ev {
        SearchEventView::Children(c) => {
            let w = walk_descend(v.walk, c);
            assert forall|i: int| 0 <= i < w.pending.len() implies nodes.contains(#[trigger] w.pending[i]) by {
                if i >= v.walk.pending.len() {
                    assert(w.pending[i] == c[c.len() - 1 - (i - v.walk.pending.len())]);
                }
            }
            lemma_walk_next_within(w, nodes);
            let v1 = SearchView { walk: w, ..v };
            let v2 = SearchView { walk: walk_next(w).1, ..v1 };
            lemma_start_collect_within(v2, Scope::Root, v.root, nodes);
            if v.stage == Stage::CollectChildren && walk_next(w).0 is None {
                lemma_untried_targets(v2.tried, v2.found);
                let t = if v2.scope == Scope::Active {
                    v2.found
                } else {
                    untried_targets(v2.tried, v2.found)
                };
                if t.len() > 0 {
                    assert(search_next(v, ev) == SearchView { stage: Stage::Try, targets: t, index: 0, tried: v2.tried.push(t[0]), ..v2 });
                }
            }
        },
        _ => {},
    }
}


/// Under the active window the search never gives up: while it is in that part, it ends
/// only with success or with a bus error; the failure that no control took the text comes
/// only after the whole tree was searched.
pub proof fn lemma_search_fails_only_in_whole_tree(v: SearchView, ev: SearchEventView)
    requires
        v.stage != Stage::Done,
        search_next(v, ev).stage == Stage::Done,
        search_next(v, ev).outcome is Err,
    ensures
        v.scope == Scope::Root || (ev matches SearchEventView::Inserted(Err(e)) && search_next(
            v,
            ev,
        ).outcome == Err::<(), Seq<char>>(e)),
{
}

/// When the active window holds no focused editable control, the search turns to the whole
/// tree: it next asks for the state of the root, in the whole-tree part.
pub proof fn lemma_search_empty_window_turns_to_root(v: SearchView, c: Seq<RefView>)
    requires
        v.stage == Stage::CollectChildren,
        v.scope == Scope::Active,
        v.found.len() == 0,
        walk_next(walk_descend(v.walk, c)).0 is None,
    ensures
        search_next(v, SearchEventView::Children(c)).scope == Scope::Root,
        search_next(v, SearchEventView::Children(c)).stage == Stage::CollectState,
        search_step(v, SearchEventView::Children(c)).1 == SearchActionView::QueryState(v.root),
{
}


/// Every control found and not tried is among the targets left.
proof fn lemma_untried_targets_complete(tried: Seq<RefView>, found: Seq<RefView>, x: RefView)
    requires
        found.contains(x),
        !tried.contains(x),
    ensures
        untried_targets(tried, found).contains(x),
    decreases found.len(),
{
    let rest = untried_targets(tried, found.drop_last());
    if found.drop_last().contains(x) {
        lemma_untried_targets_complete(tried, found.drop_last(), x);
        let k = choose|k: int| 0 <= k < rest.len() && rest[k] == x;
        if !(tried.contains(found.last()) || found.drop_last().contains(found.last())) {
            assert(rest.push(found.last())[k] == x);
        }
    } else {
        let k = choose|k: int| 0 <= k < found.len() && found[k] == x;
        if k < found.len() - 1 {
            assert(found.drop_last()[k] == x);
        }
        assert(found.last() == x);
        assert(rest.push(x)[rest.len() as int] == x);
    }
}

/// When the collection from the root ends, the controls offered the text next are exactly
/// the focused editable controls found in the whole tree that were not offered it under the
/// active window, each once; only when there are none does the search fail.
pub proof fn lemma_search_whole_tree_targets(v: SearchView, c: Seq<RefView>)
    requires
        v.stage == Stage::CollectChildren,
        v.scope == Scope::Root,
        walk_next(walk_descend(v.walk, c)).0 is None,
    ensures
        ({
            let n = search_next(v, SearchEventView::Children(c));
            &&& (exists|x: RefView| v.found.contains(x) && !v.tried.contains(x)) ==> {
                &&& n.stage == Stage::Try
                &&& n.index == 0
                &&& n.targets.no_duplicates()
                &&& forall|x: RefView| #[trigger]
                    n.targets.contains(x) <==> (v.found.contains(x) && !v.tried.contains(x))
            }
            &&& (forall|x: RefView| v.found.contains(x) ==> v.tried.contains(x)) ==> n.stage
                == Stage::Done && n.outcome == Err::<(), Seq<char>>(NO_EDITABLE_TARGET@)
        }),
{
    lemma_untried_targets(v.tried, v.found);
    let t = untried_targets(v.tried, v.found);
    assert forall|x: RefView| t.contains(x) <==> (v.found.contains(x) && !v.tried.contains(x)) by {
        if t.contains(x) {
            let k = choose|k: int| 0 <= k < t.len() && t[k] == x;
            assert(!v.tried.contains(t[k]) && v.found.contains(t[k]));
        }
        if v.found.contains(x) && !v.tried.contains(x) {
            lemma_untried_targets_complete(v.tried, v.found, x);
        }
    }
    if exists|x: RefView| v.found.contains(x) && !v.tried.contains(x) {
        let x = choose|x: RefView| v.found.contains(x) && !v.tried.contains(x);
        assert(t.contains(x));
    } else {
        if t.len() > 0 {
            assert(t.contains(t[0]));
        }
    }
}

/// Under the active window, the controls offered the text are exactly those found there,
/// in document order.
pub proof fn lemma_search_window_targets(v: SearchView, c: Seq<RefView>)
    requires
        v.stage == Stage::CollectChildren,
        v.scope == Scope::Active,
        v.found.len() > 0,
        walk_next(walk_descend(v.walk, c)).0 is None,
    ensures
        search_next(v, SearchEventView::Children(c)).stage == Stage::Try,
        search_next(v, SearchEventView::Children(c)).targets == v.found,
        search_step(v, SearchEventView::Children(c)).1 == SearchActionView::TryInsert(v.found[0]),
{
}

/// A control that does not take the text passes the turn to the next target; the search
/// leaves the current part of the tree only after its last target refused.
pub proof fn lemma_search_refusal_moves_on(v: SearchView)
    requires
        search_wf(v),
        v.stage == Stage::Try,
    ensures
        v.index + 1 < v.targets.len() ==> search_step(v, SearchEventView::Inserted(Ok(false))).1
            == SearchActionView::TryInsert(v.targets[v.index + 1]),
        search_next(v, SearchEventView::Inserted(Ok(false))).stage != Stage::Try ==> v.index + 1
            == v.targets.len(),
{
}

} // verus!
