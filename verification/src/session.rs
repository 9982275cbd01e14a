//! The stateful search session: the full item list, the filtered list, the
//! selected index, and the per-keystroke edit handling that re-derives them.

use vstd::prelude::*;
use crate::item::{clone_items, views_of, Item, ItemV};
use crate::matcher::Matcher;
use crate::strutil::{after_last, chars_to_string, str_chars, trim_back};

verus! {

/// The mathematical value of a [`LoadedState`].
pub ghost struct LoadedStateV {
    pub all: Seq<ItemV>,
    pub filtered: Option<Seq<ItemV>>,
    pub selected: int,
}

/// The session state once the item list has been handed over.  `filtered ==
/// None` means "recompute from `all` with the current query before the next
/// read"; it is set on load completion and cleared whenever filtering runs.
pub struct LoadedState {
    /// Every item, as handed over by the aggregator or the cache.
    pub all: Vec<Item>,
    /// The items matching the current query, or `None` before the first
    /// filtering run.
    pub filtered: Option<Vec<Item>>,
    /// The highlighted row of `filtered`.
    pub selected: usize,
}

impl View for LoadedState {
    type V = LoadedStateV;

    open spec fn view(&self) -> LoadedStateV {
        LoadedStateV {
            all: views_of(self.all@),
            filtered: match self.filtered {
                Some(f) => Some(views_of(f@)),
                None => None,
            },
            selected: self.selected as int,
        }
    }
}

/// The selection is a valid index whenever the filtered list is non-empty,
/// and pinned to `0` otherwise.
pub open spec fn wf_state(st: LoadedStateV) -> bool {
    match st.filtered {
        Some(f) => (f.len() > 0 ==> 0 <= st.selected < f.len()) && (f.len() == 0 ==> st.selected
            == 0),
        None => st.selected == 0,
    }
}

/// The first index of `s` holding an item whose `value` is `v`, or `-1`.
pub open spec fn index_of_value(s: Seq<ItemV>, v: Seq<char>) -> int
    decreases s.len(),
{
    if s.len() == 0 {
        -1
    } else if s[0].value == v {
        0
    } else if index_of_value(s.drop_first(), v) == -1 {
        -1
    } else {
        1 + index_of_value(s.drop_first(), v)
    }
}

pub proof fn lemma_index_of_value_bounds(s: Seq<ItemV>, v: Seq<char>)
    ensures
        -1 <= index_of_value(s, v) < s.len(),
        index_of_value(s, v) >= 0 ==> s[index_of_value(s, v)].value == v,
    decreases s.len(),
{
    if s.len() > 0 && s[0].value != v {
        lemma_index_of_value_bounds(s.drop_first(), v);
    }
}

/// [`index_of_value`] finds the first occurrence.
pub proof fn lemma_index_of_value_first(s: Seq<ItemV>, v: Seq<char>, j: int)
    requires
        0 <= j < s.len(),
        s[j].value == v,
        forall|k: int| 0 <= k < j ==> s[k].value != v,
    ensures
        index_of_value(s, v) == j,
    decreases s.len(),
{
    if j > 0 {
        assert(forall|k: int| 0 <= k < j - 1 ==> s.drop_first()[k].value != v);
        lemma_index_of_value_first(s.drop_first(), v, j - 1);
    }
}

/// [`index_of_value`] reports absence.
pub proof fn lemma_index_of_value_absent(s: Seq<ItemV>, v: Seq<char>)
    requires
        forall|k: int| 0 <= k < s.len() ==> s[k].value != v,
    ensures
        index_of_value(s, v) == -1,
    decreases s.len(),
{
    if s.len() > 0 {
        lemma_index_of_value_absent(s.drop_first(), v);
    }
}

/// The selection after a filtering run: the first position of the previously
/// selected item's `value` in the new list, or `0` when nothing was selected
/// or the item no longer matches.
pub open spec fn new_selected(captured: Option<Seq<char>>, newf: Seq<ItemV>) -> int {
    match captured {
        None => 0,
        Some(v) => if index_of_value(newf, v) == -1 {
            0
        } else {
            index_of_value(newf, v)
        },
    }
}

/// Selection preservation: when the previously selected item's `value` still
/// appears in the new filtered list, first at position `j`, the new selected
/// index is exactly `j`.
pub proof fn lemma_selection_preserved(oldf: Seq<ItemV>, i: int, newf: Seq<ItemV>, j: int)
    requires
        0 <= i < oldf.len(),
        0 <= j < newf.len(),
        newf[j].value == oldf[i].value,
        forall|k: int| 0 <= k < j ==> newf[k].value != oldf[i].value,
    ensures
        new_selected(Some(oldf[i].value), newf) == j,
{
    lemma_index_of_value_first(newf, oldf[i].value, j);
}

/// Selection reset: when the previously selected item's `value` is absent
/// from the new filtered list, the new selected index is `0`.
pub proof fn lemma_selection_reset(oldf: Seq<ItemV>, i: int, newf: Seq<ItemV>)
    requires
        0 <= i < oldf.len(),
        forall|k: int| 0 <= k < newf.len() ==> newf[k].value != oldf[i].value,
    ensures
        new_selected(Some(oldf[i].value), newf) == 0,
{
    lemma_index_of_value_absent(newf, oldf[i].value);
}

/// The `value` of the item at the selection of the old filtered list, if the
/// selection denotes one.
pub open spec fn captured_value(st: LoadedStateV) -> Option<Seq<char>> {
    match st.filtered {
        Some(f) => if 0 <= st.selected < f.len() {
            Some(f[st.selected].value)
        } else {
            None
        },
        None => None,
    }
}

/// What an incremental update filters: the current filtered list, or the
/// full list before the first run.
pub open spec fn base_items(st: LoadedStateV) -> Seq<ItemV> {
    match st.filtered {
        Some(f) => f,
        None => st.all,
    }
}

/// The state after an incremental update with query `q`.
pub open spec fn update_result<M: Matcher>(m: M, q: Seq<char>, st: LoadedStateV) -> LoadedStateV {
    let newf = m.spec_matches(q, base_items(st));
    LoadedStateV {
        all: st.all,
        filtered: Some(newf),
        selected: new_selected(captured_value(st), newf),
    }
}

/// The state after a reset update with query `q`: recomputed from the full
/// list, or the full list itself when the query is empty.
pub open spec fn reset_result<M: Matcher>(m: M, q: Seq<char>, st: LoadedStateV) -> LoadedStateV {
    let newf = if q.len() == 0 {
        st.all
    } else {
        m.spec_matches(q, st.all)
    };
    LoadedStateV {
        all: st.all,
        filtered: Some(newf),
        selected: new_selected(captured_value(st), newf),
    }
}

/// The first index of `v` in `items`, with `0` standing in for absence, as
/// [`new_selected`] wants it.
fn find_value_index(items: &Vec<Item>, v: &String) -> (r: usize)
    ensures
        r as int == new_selected(Some(v@), views_of(items@)),
        views_of(items@).len() > 0 ==> (r as int) < views_of(items@).len(),
        views_of(items@).len() == 0 ==> r == 0,
{
    let ghost s = views_of(items@);
    let mut i: usize = 0;
    while i < items.len()
        invariant
            i <= items.len(),
            s == views_of(items@),
            forall|k: int| 0 <= k < i ==> #[trigger] s[k].value != v@,
        decreases items.len() - i,
    {
        if items[i].value == *v {
            proof {
                lemma_index_of_value_first(s, v@, i as int);
            }
            return i;
        }
        i = i + 1;
    }
    proof {
        lemma_index_of_value_absent(s, v@);
    }
    0
}

impl LoadedState {
    /// Captures the `value` of the currently selected item, if any.
    fn capture_selected(&self) -> (r: Option<String>)
        ensures
            match captured_value(self@) {
                Some(v) => r matches Some(rv) && rv@ == v,
                None => r is None,
            },
    {
        match &self.filtered {
            None => None,
            Some(f) => {
                if self.selected < f.len() {
                    Some(f[self.selected].value.clone())
                } else {
                    None
                }
            },
        }
    }

    /// The incremental update: filters the current filtered list (the full
    /// list before the first run) with the current query, then re-derives
    /// the selection so the previously highlighted item stays highlighted
    /// whenever it still matches.
    pub fn update_filtered<M: Matcher>(&mut self, matcher: &M, query: &str)
        ensures
            final(self)@ == update_result(*matcher, query@, old(self)@),
            wf_state(final(self)@),
    {
        let captured = self.capture_selected();
        let newf = match &self.filtered {
            Some(f) => matcher.matches(query, f),
            None => matcher.matches(query, &self.all),
        };
        let sel: usize = match &captured {
            None => 0,
            Some(v) => find_value_index(&newf, v),
        };
        proof {
            lemma_index_of_value_bounds(views_of(newf@), match captured_value(old(self)@) {
                Some(v) => v,
                None => Seq::empty(),
            });
        }
        self.selected = sel;
        self.filtered = Some(newf);
    }

    /// The reset update: recomputes from the full list (the full list
    /// itself when the query is empty), preserving the selection the same
    /// way.
    pub fn update_filtered_reset<M: Matcher>(&mut self, matcher: &M, query: &str)
        ensures
            final(self)@ == reset_result(*matcher, query@, old(self)@),
            wf_state(final(self)@),
    {
        let captured = self.capture_selected();
        let newf = if query.is_empty() {
            clone_items(&self.all)
        } else {
            matcher.matches(query, &self.all)
        };
        let sel: usize = match &captured {
            None => 0,
            Some(v) => find_value_index(&newf, v),
        };
        proof {
            lemma_index_of_value_bounds(views_of(newf@), match captured_value(old(self)@) {
                Some(v) => v,
                None => Seq::empty(),
            });
        }
        self.selected = sel;
        self.filtered = Some(newf);
    }

    /// Moves the selection down one row, wrapping from the last index to
    /// `0`; a no-op when the filtered list is empty or absent.
    pub fn move_down(&mut self)
        requires
            wf_state(old(self)@),
        ensures
            final(self).all == old(self).all,
            final(self).filtered == old(self).filtered,
            wf_state(final(self)@),
            match old(self).filtered {
                Some(f) => if f@.len() > 0 {
                    final(self).selected as int == if old(self).selected + 1 == f@.len() {
                        0int
                    } else {
                        old(self).selected + 1
                    }
                } else {
                    final(self).selected == old(self).selected
                },
                None => final(self).selected == old(self).selected,
            },
    {
        match &self.filtered {
            Some(f) => {
                if f.len() > 0 {
                    if self.selected + 1 == f.len() {
                        self.selected = 0;
                    } else {
                        self.selected = self.selected + 1;
                    }
                }
            },
            None => {},
        }
    }

    /// Moves the selection up one row, wrapping from index `0` to the last
    /// index; a no-op when the filtered list is empty or absent.
    pub fn move_up(&mut self)
        requires
            wf_state(old(self)@),
        ensures
            final(self).all == old(self).all,
            final(self).filtered == old(self).filtered,
            wf_state(final(self)@),
            match old(self).filtered {
                Some(f) => if f@.len() > 0 {
                    final(self).selected as int == if old(self).selected == 0 {
                        f@.len() - 1
                    } else {
                        old(self).selected - 1
                    }
                } else {
                    final(self).selected == old(self).selected
                },
                None => final(self).selected == old(self).selected,
            },
    {
        match &self.filtered {
            Some(f) => {
                if f.len() > 0 {
                    if self.selected == 0 {
                        self.selected = f.len() - 1;
                    } else {
                        self.selected = self.selected - 1;
                    }
                }
            },
            None => {},
        }
    }

    /// The `value` to launch: the selected item's, when the filtered list is
    /// non-empty; `None` otherwise.
    pub fn activate(&self) -> (r: Option<String>)
        requires
            wf_state(self@),
        ensures
            match self.filtered {
                Some(f) => if f@.len() > 0 {
                    r matches Some(v) && v@ == f@[self.selected as int]@.value
                } else {
                    r is None
                },
                None => r is None,
            },
    {
        match &self.filtered {
            Some(f) => {
                if f.len() > 0 {
                    Some(f[self.selected].value.clone())
                } else {
                    None
                }
            },
            None => None,
        }
    }
}


/// A query edit or navigation command from the host UI.
pub enum Command {
    AppendText(String),
    Backspace,
    DeleteWord,
    Clear,
    MoveUp,
    MoveDown,
    Activate,
    Quit,
}

/// What the host must do after a command is processed.
pub enum Outcome {
    /// Keep the session running.
    Continue,
    /// Open the selected item's target and end the session.
    Launch(String),
    /// End the session without launching.
    Terminate,
}

/// The session is either still loading or holds a loaded state.
pub enum ShuttleState {
    Loading,
    Loaded(LoadedState),
}

/// The query after a delete-word edit: truncated to just after the last
/// space of the query with trailing whitespace removed, or to empty when no
/// space is left.
pub open spec fn delete_word_of(q: Seq<char>) -> Seq<char> {
    q.subrange(0, after_last(trim_back(q), ' '))
}

/// The query after a command is applied.
pub open spec fn query_after(cmd: Command, q: Seq<char>) -> Seq<char> {
    match cmd {
        Command::AppendText(t) => q + t@,
        Command::Backspace => if q.len() > 0 {
            q.drop_last()
        } else {
            q
        },
        Command::DeleteWord => delete_word_of(q),
        Command::Clear => Seq::empty(),
        _ => q,
    }
}

/// A filtered list is forced to exist: a command that reads it first
/// triggers a reset when the recompute sentinel is set.
pub open spec fn ensure_filtered<M: Matcher>(m: M, q: Seq<char>, st: LoadedStateV) -> LoadedStateV {
    if st.filtered is None {
        reset_result(m, q, st)
    } else {
        st
    }
}

/// The state after moving the selection down with wraparound.
pub open spec fn step_down(st: LoadedStateV) -> LoadedStateV {
    match st.filtered {
        Some(f) => if f.len() > 0 {
            LoadedStateV {
                all: st.all,
                filtered: st.filtered,
                selected: if st.selected + 1 == f.len() {
                    0
                } else {
                    st.selected + 1
                },
            }
        } else {
            st
        },
        None => st,
    }
}

/// The state after moving the selection up with wraparound.
pub open spec fn step_up(st: LoadedStateV) -> LoadedStateV {
    match st.filtered {
        Some(f) => if f.len() > 0 {
            LoadedStateV {
                all: st.all,
                filtered: st.filtered,
                selected: if st.selected == 0 {
                    f.len() - 1
                } else {
                    st.selected - 1
                },
            }
        } else {
            st
        },
        None => st,
    }
}

/// The loaded state after one command: lengthening edits filter
/// incrementally, widening edits reset from the full list, navigation and
/// activation first force the filtered list to exist.
pub open spec fn loaded_after<M: Matcher>(
    m: M,
    cmd: Command,
    q: Seq<char>,
    st: LoadedStateV,
) -> LoadedStateV {
    let nq = query_after(cmd, q);
    match cmd {
        Command::AppendText(_) => if st.filtered is None {
            reset_result(m, nq, st)
        } else {
            update_result(m, nq, st)
        },
        Command::Backspace => if q.len() > 0 || st.filtered is None {
            reset_result(m, nq, st)
        } else {
            st
        },
        Command::DeleteWord => reset_result(m, nq, st),
        Command::Clear => reset_result(m, nq, st),
        Command::MoveUp => step_up(ensure_filtered(m, q, st)),
        Command::MoveDown => step_down(ensure_filtered(m, q, st)),
        Command::Activate => ensure_filtered(m, q, st),
        Command::Quit => st,
    }
}

/// The characters `cs[..n]`, as a string.
fn chars_prefix_string(cs: &Vec<char>, n: usize) -> (r: String)
    requires
        n <= cs.len(),
    ensures
        r@ == cs@.subrange(0, n as int),
{
    let mut out: Vec<char> = Vec::new();
    let mut i: usize = 0;
    while i < n
        invariant
            i <= n,
            n <= cs@.len(),
            out@ == cs@.subrange(0, i as int),
        decreases n - i,
    {
        out.push(cs[i]);
        proof {
            assert(out@ =~= cs@.subrange(0, i + 1 as int));
        }
        i = i + 1;
    }
    chars_to_string(&out)
}

/// The cut position of a delete-word edit on `cs`.
#[verifier::loop_isolation(false)]
fn delete_word_end(cs: &Vec<char>) -> (r: usize)
    ensures
        r as int == after_last(trim_back(cs@), ' '),
        r <= cs.len(),
{
    let mut b: usize = cs.len();
    proof {
        assert(cs@.subrange(0, cs@.len() as int) =~= cs@);
    }
    while b > 0 && (cs[b - 1] == ' ' || cs[b - 1] == '\t' || cs[b - 1] == '\n' || cs[b - 1]
        == '\r')
        invariant
            b <= cs.len(),
            trim_back(cs@) == trim_back(cs@.subrange(0, b as int)),
        decreases b,
    {
        proof {
            let suf = cs@.subrange(0, b as int);
            assert(suf[suf.len() - 1] == cs@[b - 1]);
            assert(suf.drop_last() =~= cs@.subrange(0, b - 1));
        }
        b = b - 1;
    }
    let ghost t = cs@.subrange(0, b as int);
    proof {
        if b > 0 {
            assert(t[t.len() - 1] == cs@[b - 1]);
        }
        assert(trim_back(cs@) == t);
        assert(t.subrange(0, b as int) =~= t);
    }
    let mut k: usize = b;
    while k > 0 && cs[k - 1] != ' '
        invariant
            k <= b,
            after_last(t, ' ') == after_last(t.subrange(0, k as int), ' '),
        decreases k,
    {
        proof {
            assert(t.subrange(0, k as int)[k - 1] == cs@[k - 1]);
            assert(t.subrange(0, k as int).drop_last() =~= t.subrange(0, k - 1));
        }
        k = k - 1;
    }
    proof {
        if k > 0 {
            assert(t.subrange(0, k as int)[k - 1] == cs@[k - 1]);
        }
        assert(after_last(t, ' ') == k as int);
    }
    k
}

/// The search application: the current query, the session state, and the
/// matching strategy chosen at construction.
pub struct ShuttleApp<M: Matcher> {
    /// The query as typed so far.
    pub query: String,
    /// Loading until the item list is handed over, then loaded.
    pub state: ShuttleState,
    /// The strategy every filtering run uses.
    pub matcher: M,
}

impl<M: Matcher> ShuttleApp<M> {
    /// The selection invariant of the loaded state, if loaded.
    pub open spec fn wf(&self) -> bool {
        match self.state {
            ShuttleState::Loaded(st) => wf_state(st@),
            ShuttleState::Loading => true,
        }
    }

    /// A fresh session: empty query, still loading.
    pub fn new(matcher: M) -> (r: Self)
        ensures
            r.query@.len() == 0,
            r.state matches ShuttleState::Loading,
            r.wf(),
    {
        ShuttleApp { query: String::new(), state: ShuttleState::Loading, matcher }
    }

    /// The one-time handoff of the full item list: the session becomes
    /// loaded with the recompute sentinel set, so the first command filters.
    pub fn set_loaded(&mut self, items: Vec<Item>)
        requires
            old(self).state matches ShuttleState::Loading,
        ensures
            final(self).query == old(self).query,
            final(self).matcher == old(self).matcher,
            (final(self).state matches ShuttleState::Loaded(st) && st@ == (LoadedStateV {
                all: views_of(items@),
                filtered: None,
                selected: 0,
            })),
            final(self).wf(),
    {
        self.state = ShuttleState::Loaded(
            LoadedState { all: items, filtered: None, selected: 0 },
        );
    }

    /// Applies one command: edits the query, re-derives the filtered list
    /// and selection on the path the edit calls for, and reports what the
    /// host must do.
    pub fn handle_command(&mut self, cmd: Command) -> (r: Outcome)
        requires
            old(self).wf(),
        ensures
            final(self).wf(),
            final(self).matcher == old(self).matcher,
            final(self).query@ == query_after(cmd, old(self).query@),
            match old(self).state {
                ShuttleState::Loading => {
                    &&& final(self).state matches ShuttleState::Loading
                    &&& (cmd matches Command::Quit ==> r matches Outcome::Terminate)
                    &&& (!(cmd matches Command::Quit) ==> r matches Outcome::Continue)
                },
                ShuttleState::Loaded(st) => {
                    &&& (final(self).state matches ShuttleState::Loaded(st2) && st2@
                        == loaded_after(old(self).matcher, cmd, old(self).query@, st@))
                    &&& match cmd {
                        Command::Quit => r matches Outcome::Terminate,
                        Command::Activate => {
                            let ef = ensure_filtered(
                                old(self).matcher,
                                old(self).query@,
                                st@,
                            );
                            match ef.filtered {
                                Some(f) => if f.len() > 0 {
                                    r matches Outcome::Launch(v) && v@ == f[ef.selected].value
                                } else {
                                    r matches Outcome::Continue
                                },
                                None => r matches Outcome::Continue,
                            }
                        },
                        _ => r matches Outcome::Continue,
                    }
                },
            },
    {
        let ghost oldq = self.query@;
        let mut was_nonempty = false;
        match &cmd {
            Command::AppendText(t) => {
                self.query.append(t.as_str());
            },
            Command::Backspace => {
                if !self.query.as_str().is_empty() {
                    was_nonempty = true;
                    let cs = str_chars(self.query.as_str());
                    self.query = chars_prefix_string(&cs, cs.len() - 1);
                    proof {
                        assert(self.query@ =~= oldq.drop_last());
                    }
                }
            },
            Command::DeleteWord => {
                let cs = str_chars(self.query.as_str());
                let k = delete_word_end(&cs);
                self.query = chars_prefix_string(&cs, k);
            },
            Command::Clear => {
                self.query = String::new();
                proof {
                    assert(self.query@ =~= query_after(cmd, oldq));
                }
            },
            _ => {},
        }
        let mut state = ShuttleState::Loading;
        core::mem::swap(&mut state, &mut self.state);
        match state {
            ShuttleState::Loading => {
                self.state = ShuttleState::Loading;
                match &cmd {
                    Command::Quit => Outcome::Terminate,
                    _ => Outcome::Continue,
                }
            },
            ShuttleState::Loaded(mut st) => {
                let r = match &cmd {
                    Command::AppendText(_) => {
                        if st.filtered.is_none() {
                            st.update_filtered_reset(&self.matcher, self.query.as_str());
                        } else {
                            st.update_filtered(&self.matcher, self.query.as_str());
                        }
                        Outcome::Continue
                    },
                    Command::Backspace => {
                        if was_nonempty || st.filtered.is_none() {
                            st.update_filtered_reset(&self.matcher, self.query.as_str());
                        }
                        Outcome::Continue
                    },
                    Command::DeleteWord => {
                        st.update_filtered_reset(&self.matcher, self.query.as_str());
                        Outcome::Continue
                    },
                    Command::Clear => {
                        st.update_filtered_reset(&self.matcher, self.query.as_str());
                        Outcome::Continue
                    },
                    Command::MoveUp => {
                        if st.filtered.is_none() {
                            st.update_filtered_reset(&self.matcher, self.query.as_str());
                        }
                        st.move_up();
                        Outcome::Continue
                    },
                    Command::MoveDown => {
                        if st.filtered.is_none() {
                            st.update_filtered_reset(&self.matcher, self.query.as_str());
                        }
                        st.move_down();
                        Outcome::Continue
                    },
                    Command::Activate => {
                        if st.filtered.is_none() {
                            st.update_filtered_reset(&self.matcher, self.query.as_str());
                        }
                        match st.activate() {
                            Some(v) => Outcome::Launch(v),
                            None => Outcome::Continue,
                        }
                    },
                    Command::Quit => Outcome::Terminate,
                };
                self.state = ShuttleState::Loaded(st);
                r
            },
        }
    }
}

} // verus!

