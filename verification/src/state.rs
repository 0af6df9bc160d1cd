//! The running statistics over all trials: how many were run, how many left
//! nobody stuck, and how often each student got stuck.

use crate::hospital::same_text;
use crate::roster::{lemma_names_member, lemma_names_prefix, lemma_roster_step, names};
use crate::student::Student;
use vstd::multiset::Multiset;
use vstd::prelude::*;

verus! {

/// How often each student got stuck: one entry per name, in the order in which
/// the names first came up.
#[derive(Debug)]
pub struct Tallies {
    entries: Vec<(String, usize)>,
}

/// The statistics.
#[derive(Debug)]
pub struct State {
    pub count: usize,
    pub success: usize,
    pub fails: Tallies,
}

/// What the statistics are, to a contract.
pub struct StateView {
    /// The number of trials.
    pub count: nat,
    /// The number of trials in which nobody got stuck.
    pub success: nat,
    /// For every name that ever came up, the number of times its student got stuck.
    pub fails: Map<Seq<char>, nat>,
}

/// How often a name got stuck according to the tallies: zero for a name that
/// never came up.
pub open spec fn failures(fails: Map<Seq<char>, nat>, name: Seq<char>) -> nat {
    if fails.contains_key(name) {
        fails[name]
    } else {
        0
    }
}

/// The tallies after each name got stuck as often again as `names` holds it.
pub open spec fn tallied(fails: Map<Seq<char>, nat>, names: Multiset<Seq<char>>) -> Map<
    Seq<char>,
    nat,
> {
    Map::new(
        |name: Seq<char>| fails.contains_key(name) || names.count(name) > 0,
        |name: Seq<char>| failures(fails, name) + names.count(name),
    )
}

/// The statistics after one more trial in which the students of the given
/// names got stuck.
pub open spec fn merged(state: StateView, stuck: Multiset<Seq<char>>) -> StateView {
    StateView {
        count: state.count + 1,
        success: if stuck.len() == 0 {
            state.success + 1
        } else {
            state.success
        },
        fails: tallied(state.fails, stuck),
    }
}

/// The statistics after those of `other` are taken in: the trials, the
/// successes and the tallies add up.
pub open spec fn absorbed(state: StateView, other: StateView) -> StateView {
    StateView {
        count: state.count + other.count,
        success: state.success + other.success,
        fails: Map::new(
            |name: Seq<char>| state.fails.contains_key(name) || other.fails.contains_key(name),
            |name: Seq<char>| failures(state.fails, name) + failures(other.fails, name),
        ),
    }
}

/// Whether every number of the statistics fits the machine's word.
pub open spec fn representable(state: StateView) -> bool {
    &&& state.count <= usize::MAX
    &&& state.success <= usize::MAX
    &&& forall|name: Seq<char>| failures(state.fails, name) <= usize::MAX
}

/// Whether no name stands twice among the entries.
pub open spec fn distinct_names(entries: Seq<(String, usize)>) -> bool {
    forall|i: int, j: int|
        0 <= i < j < entries.len() ==> (#[trigger] entries[i]).0@ != (#[trigger] entries[j]).0@
}

/// Whether the name stands among the entries.
pub open spec fn listed(entries: Seq<(String, usize)>, name: Seq<char>) -> bool {
    exists|i: int| 0 <= i < entries.len() && (#[trigger] entries[i]).0@ == name
}

/// Where the name stands among the entries.
pub open spec fn position(entries: Seq<(String, usize)>, name: Seq<char>) -> int {
    choose|i: int| 0 <= i < entries.len() && (#[trigger] entries[i]).0@ == name
}

/// The entries as tallies by name.
pub open spec fn tallies(entries: Seq<(String, usize)>) -> Map<Seq<char>, nat> {
    Map::new(
        |name: Seq<char>| listed(entries, name),
        |name: Seq<char>| entries[position(entries, name)].1 as nat,
    )
}

/// The tallies that come about when the entries are recorded one after the
/// other, each added to what its name has so far.
pub open spec fn summed(entries: Seq<(String, usize)>) -> Map<Seq<char>, nat>
    decreases entries.len(),
{
    if entries.len() == 0 {
        Map::empty()
    } else {
        let earlier = summed(entries.drop_last());
        let name = entries.last().0@;
        earlier.insert(name, failures(earlier, name) + entries.last().1 as nat)
    }
}

/// Order does not matter: two trials merged into the statistics give the same
/// statistics whichever of them is merged first.
pub proof fn lemma_merge_commutes(
    state: StateView,
    first: Multiset<Seq<char>>,
    second: Multiset<Seq<char>>,
)
    ensures
        merged(merged(state, first), second) == merged(merged(state, second), first),
{
    let a = merged(merged(state, first), second);
    let b = merged(merged(state, second), first);
    assert(a.fails =~= b.fails);
}

/// Taking in statistics that hold nothing changes nothing.
pub proof fn lemma_absorb_nothing(state: StateView)
    ensures
        absorbed(state, StateView { count: 0, success: 0, fails: Map::empty() }) == state,
{
    let nothing = StateView { count: 0, success: 0, fails: Map::empty() };
    assert(absorbed(state, nothing).fails =~= state.fails);
}

/// Taking in statistics is the same as merging the trials behind them: to
/// take in what has one more trial merged is to take in what came before and
/// then to merge that trial.
pub proof fn lemma_absorb_merged(state: StateView, other: StateView, stuck: Multiset<Seq<char>>)
    ensures
        absorbed(state, merged(other, stuck)) == merged(absorbed(state, other), stuck),
{
    let a = absorbed(state, merged(other, stuck));
    let b = merged(absorbed(state, other), stuck);
    assert(a.fails =~= b.fails);
}

/// Of two statistics it does not matter which takes in the other.
pub proof fn lemma_absorb_commutes(state: StateView, other: StateView)
    ensures
        absorbed(state, other) == absorbed(other, state),
{
    assert(absorbed(state, other).fails =~= absorbed(other, state).fails);
}

/// Among entries with distinct names, a name stands where it is found.
pub proof fn lemma_position(entries: Seq<(String, usize)>, i: int)
    requires
        distinct_names(entries),
        0 <= i < entries.len(),
    ensures
        listed(entries, entries[i].0@),
        position(entries, entries[i].0@) == i,
        tallies(entries).contains_key(entries[i].0@),
        tallies(entries)[entries[i].0@] == entries[i].1,
{
    let name = entries[i].0@;
    assert(listed(entries, name));
    let p = position(entries, name);
    if p < i {
        assert(entries[p].0@ != entries[i].0@);
    }
    if i < p {
        assert(entries[i].0@ != entries[p].0@);
    }
}

/// Changing the number of one entry changes the tally of its name and nothing else.
proof fn lemma_entry_changed(
    entries: Seq<(String, usize)>,
    i: int,
    after: Seq<(String, usize)>,
)
    requires
        distinct_names(entries),
        0 <= i < entries.len(),
        after.len() == entries.len(),
        forall|k: int| 0 <= k < entries.len() ==> (#[trigger] after[k]).0@ == entries[k].0@,
        forall|k: int| 0 <= k < entries.len() && k != i ==> (#[trigger] after[k]).1 == entries[k].1,
    ensures
        distinct_names(after),
        tallies(after) == tallies(entries).insert(entries[i].0@, after[i].1 as nat),
{
    assert forall|a: int, b: int| 0 <= a < b < after.len() implies (#[trigger] after[a]).0@ != (
    #[trigger] after[b]).0@ by {
        assert(entries[a].0@ != entries[b].0@);
    }
    let target = tallies(entries).insert(entries[i].0@, after[i].1 as nat);
    assert forall|name: Seq<char>| listed(after, name) == listed(entries, name) by {
        if listed(after, name) {
            let k = choose|k: int| 0 <= k < after.len() && (#[trigger] after[k]).0@ == name;
            assert(entries[k].0@ == name);
        }
        if listed(entries, name) {
            let k = choose|k: int| 0 <= k < entries.len() && (#[trigger] entries[k]).0@ == name;
            assert(after[k].0@ == name);
        }
    }
    lemma_position(entries, i);
    lemma_position(after, i);
    assert forall|name: Seq<char>| #[trigger] tallies(after).contains_key(name) implies tallies(
        after,
    )[name] == target[name] by {
        let k = position(after, name);
        lemma_position(after, k);
        lemma_position(entries, k);
    }
    assert(tallies(after) =~= target);
}

/// A new entry under a name that is not yet listed adds that name's tally.
proof fn lemma_entry_added(entries: Seq<(String, usize)>, entry: (String, usize))
    requires
        distinct_names(entries),
        !listed(entries, entry.0@),
    ensures
        distinct_names(entries.push(entry)),
        tallies(entries.push(entry)) == tallies(entries).insert(entry.0@, entry.1 as nat),
{
    let after = entries.push(entry);
    assert forall|a: int, b: int| 0 <= a < b < after.len() implies (#[trigger] after[a]).0@ != (
    #[trigger] after[b]).0@ by {
        if b == entries.len() {
            assert(entries[a].0@ != entry.0@);
        } else {
            assert(entries[a].0@ != entries[b].0@);
        }
    }
    let target = tallies(entries).insert(entry.0@, entry.1 as nat);
    assert forall|name: Seq<char>| listed(after, name) == (listed(entries, name) || name
        == entry.0@) by {
        if listed(after, name) {
            let k = choose|k: int| 0 <= k < after.len() && (#[trigger] after[k]).0@ == name;
            if k < entries.len() {
                assert(entries[k].0@ == name);
            }
        }
        if listed(entries, name) {
            let k = choose|k: int| 0 <= k < entries.len() && (#[trigger] entries[k]).0@ == name;
            assert(after[k].0@ == name);
        }
        if name == entry.0@ {
            assert(after[entries.len() as int].0@ == name);
        }
    }
    assert forall|name: Seq<char>| #[trigger] tallies(after).contains_key(name) implies tallies(
        after,
    )[name] == target[name] by {
        let k = position(after, name);
        lemma_position(after, k);
        if k < entries.len() {
            lemma_position(entries, k);
        }
    }
    assert(tallies(after) =~= target);
}

/// Recording more entries never lowers a tally.
proof fn lemma_summed_prefix(entries: Seq<(String, usize)>, i: int, name: Seq<char>)
    requires
        0 <= i <= entries.len(),
    ensures
        failures(summed(entries.take(i)), name) <= failures(summed(entries), name),
    decreases entries.len(),
{
    if i < entries.len() {
        let rest = entries.drop_last();
        lemma_summed_prefix(rest, i, name);
        assert(rest.take(i) =~= entries.take(i));
    } else {
        assert(entries.take(i) =~= entries);
    }
}

/// Entries with distinct names, recorded one after the other, give exactly the
/// tallies that they list: what is written out of the statistics and recorded
/// anew is the statistics again.
pub proof fn lemma_summed_distinct(entries: Seq<(String, usize)>)
    requires
        distinct_names(entries),
    ensures
        summed(entries) == tallies(entries),
    decreases entries.len(),
{
    if entries.len() == 0 {
        assert(tallies(entries) =~= Map::empty());
    } else {
        let rest = entries.drop_last();
        let last = entries.last();
        assert forall|a: int, b: int| 0 <= a < b < rest.len() implies (#[trigger] rest[a]).0@ != (
        #[trigger] rest[b]).0@ by {
            assert(entries[a].0@ != entries[b].0@);
        }
        lemma_summed_distinct(rest);
        if listed(rest, last.0@) {
            let k = choose|k: int| 0 <= k < rest.len() && (#[trigger] rest[k]).0@ == last.0@;
            assert(entries[k].0@ != entries[entries.len() - 1].0@);
        }
        lemma_entry_added(rest, last);
        assert(rest.push(last) =~= entries);
    }
}

impl View for Tallies {
    type V = Map<Seq<char>, nat>;

    closed spec fn view(&self) -> Map<Seq<char>, nat> {
        tallies(self.entries@)
    }
}

impl View for State {
    type V = StateView;

    open spec fn view(&self) -> StateView {
        StateView { count: self.count as nat, success: self.success as nat, fails: self.fails@ }
    }
}

impl Tallies {
    /// Whether every name is tallied once.
    pub closed spec fn wf(&self) -> bool {
        distinct_names(self.entries@)
    }

    /// No tally exceeds the machine's word.
    pub broadcast proof fn lemma_bounded(self, name: Seq<char>)
        ensures
            #[trigger] failures(self@, name) <= usize::MAX,
    {
    }

    /// No tallies at all.
    pub fn new() -> (empty: Tallies)
        ensures
            empty.wf(),
            empty@ == Map::<Seq<char>, nat>::empty(),
    {
        let empty = Tallies { entries: Vec::new() };
        proof {
            assert(tallies(empty.entries@) =~= Map::empty());
        }
        empty
    }

    /// Tallies from a list of entries, each recorded in turn; none where a
    /// tally would outgrow the machine's word.  Entries with distinct names
    /// always give tallies, and those list exactly the entries.
    pub fn restore(entries: Vec<(String, usize)>) -> (restored: Option<Tallies>)
        ensures
            match restored {
                Some(kept) => kept.wf() && kept@ == summed(entries@),
                None => exists|name: Seq<char>| failures(summed(entries@), name) > usize::MAX,
            },
            distinct_names(entries@) ==> restored is Some && restored->Some_0@ == tallies(
                entries@,
            ),
    {
        let ghost list = entries@;
        let mut kept = Tallies::new();
        proof {
            assert(list.take(0) =~= Seq::empty());
            if distinct_names(list) {
                lemma_summed_distinct(list);
            }
        }
        for entry in it: entries
            invariant
                it.seq() == list,
                kept.wf(),
                kept@ == summed(list.take(it.index() as int)),
                distinct_names(list) ==> summed(list) == tallies(list),
        {
            let ghost i = it.index() as int;
            let (name, times) = entry;
            proof {
                assert(list.take(i + 1).drop_last() =~= list.take(i));
                lemma_summed_prefix(list, i + 1, name@);
            }
            if kept.get(name.as_str()).checked_add(times).is_none() {
                proof {
                    assert(failures(summed(list), name@) > usize::MAX);
                    if distinct_names(list) {
                        assert(failures(tallies(list), name@) <= usize::MAX);
                    }
                }
                return None;
            }
            kept.record(name, times);
        }
        proof {
            assert(list.take(list.len() as int) =~= list);
        }
        Some(kept)
    }

    /// How often the student of the given name got stuck.
    pub fn get(&self, name: &str) -> (times: usize)
        requires
            self.wf(),
        ensures
            times == failures(self@, name@),
    {
        let mut i: usize = 0;
        while i < self.entries.len()
            invariant
                i <= self.entries@.len(),
                self.wf(),
                forall|k: int| 0 <= k < i ==> (#[trigger] self.entries@[k]).0@ != name@,
            decreases self.entries@.len() - i,
        {
            if same_text(self.entries[i].0.as_str(), name) {
                proof {
                    lemma_position(self.entries@, i as int);
                }
                return self.entries[i].1;
            }
            i += 1;
        }
        proof {
            if listed(self.entries@, name@) {
                let k = choose|k: int|
                    0 <= k < self.entries@.len() && (#[trigger] self.entries@[k]).0@ == name@;
                assert(false);
            }
        }
        0
    }

    /// The tallies, one entry for every name, in the order in which the names
    /// first came up.
    pub fn entries(&self) -> (entries: &Vec<(String, usize)>)
        requires
            self.wf(),
        ensures
            distinct_names(entries@),
            tallies(entries@) == self@,
    {
        &self.entries
    }

    /// Adds `times` to the tally of the given name, which starts at zero.
    pub fn record(&mut self, name: String, times: usize)
        requires
            old(self).wf(),
            failures(old(self)@, name@) + times <= usize::MAX,
        ensures
            final(self).wf(),
            final(self)@ == old(self)@.insert(name@, failures(old(self)@, name@) + times as nat),
    {
        let ghost before = self.entries@;
        let mut i: usize = 0;
        while i < self.entries.len()
            invariant
                i <= self.entries@.len(),
                self.entries@ == before,
                old(self).entries@ == before,
                distinct_names(before),
                failures(tallies(before), name@) + times <= usize::MAX,
                forall|k: int| 0 <= k < i ==> (#[trigger] before[k]).0@ != name@,
            decreases self.entries@.len() - i,
        {
            if self.entries[i].0 == name {
                proof {
                    lemma_position(before, i as int);
                }
                let tally = self.entries[i].1;
                self.entries[i].1 = tally + times;
                proof {
                    lemma_entry_changed(before, i as int, self.entries@);
                }
                return;
            }
            i += 1;
        }
        proof {
            if listed(before, name@) {
                let k = choose|k: int| 0 <= k < before.len() && (#[trigger] before[k]).0@ == name@;
                assert(false);
            }
            lemma_entry_added(before, (name, times));
        }
        self.entries.push((name, times));
    }
}

impl Default for State {
    /// The statistics before the first trial.
    fn default() -> (state: State)
        ensures
            state.wf(),
            state@ == (StateView { count: 0, success: 0, fails: Map::empty() }),
    {
        State { count: 0, success: 0, fails: Tallies::new() }
    }
}

impl Clone for Tallies {
    fn clone(&self) -> (copy: Tallies)
        ensures
            copy@ == self@,
            self.wf() ==> copy.wf(),
    {
        let mut entries: Vec<(String, usize)> = Vec::new();
        let mut i: usize = 0;
        while i < self.entries.len()
            invariant
                i <= self.entries@.len(),
                entries@ == self.entries@.take(i as int),
            decreases self.entries@.len() - i,
        {
            entries.push((self.entries[i].0.clone(), self.entries[i].1));
            proof {
                assert(entries@ =~= self.entries@.take(i + 1));
            }
            i += 1;
        }
        proof {
            assert(self.entries@.take(self.entries@.len() as int) =~= self.entries@);
        }
        Tallies { entries }
    }
}

impl Clone for State {
    fn clone(&self) -> (copy: State)
        ensures
            copy@ == self@,
            self.wf() ==> copy.wf(),
    {
        State { count: self.count, success: self.success, fails: self.fails.clone() }
    }
}

impl State {
    /// Whether the statistics are well kept: every name is tallied once.
    pub open spec fn wf(&self) -> bool {
        self.fails.wf()
    }

    /// Whether the outcome of one more trial can be taken in without a number
    /// outgrowing the machine's word.
    pub fn can_merge(&self, stuck: &Vec<Student>) -> (fits: bool)
        requires
            self.wf(),
        ensures
            fits == representable(merged(self@, names(stuck@))),
    {
        let ghost roster = stuck@;
        let ghost after = merged(self@, names(roster));
        proof {
            lemma_names_prefix(roster, 0, Seq::empty());
        }
        if self.count == usize::MAX {
            return false;
        }
        if stuck.is_empty() && self.success == usize::MAX {
            return false;
        }
        let mut i: usize = 0;
        while i < stuck.len()
            invariant
                i <= roster.len(),
                roster == stuck@,
                self.wf(),
                after == merged(self@, names(roster)),
                forall|k: int|
                    0 <= k < i ==> failures(after.fails, (#[trigger] roster[k])@.name)
                        <= usize::MAX,
            decreases roster.len() - i,
        {
            let name = stuck[i].get_name();
            let mut times: usize = 0;
            let mut j: usize = 0;
            proof {
                assert(names(roster.take(0)) =~= Multiset::empty());
            }
            while j < stuck.len()
                invariant
                    j <= roster.len(),
                    roster == stuck@,
                    times <= j,
                    times == names(roster.take(j as int)).count(name@),
                decreases roster.len() - j,
            {
                proof {
                    lemma_roster_step(roster, j as int);
                }
                if same_text(stuck[j].get_name(), name) {
                    times += 1;
                }
                j += 1;
            }
            proof {
                assert(roster.take(roster.len() as int) =~= roster);
            }
            if self.fails.get(name).checked_add(times).is_none() {
                proof {
                    assert(failures(after.fails, name@) > usize::MAX);
                }
                return false;
            }
            i += 1;
        }
        proof {
            assert forall|name: Seq<char>| failures(after.fails, name) <= usize::MAX by {
                if names(roster).count(name) > 0 {
                    lemma_names_member(roster, name);
                } else {
                    self.fails.lemma_bounded(name);
                }
            }
        }
        true
    }

    /// Takes the outcome of one trial into the statistics: one more trial, one
    /// more success if nobody got stuck, and one more failure for every
    /// student who did.
    pub fn merge(&mut self, stuck: Vec<Student>)
        requires
            old(self).wf(),
            representable(merged(old(self)@, names(stuck@))),
        ensures
            final(self).wf(),
            final(self)@ == merged(old(self)@, names(stuck@)),
    {
        let ghost roster = stuck@;
        let ghost before = self@;
        proof {
            lemma_names_prefix(roster, 0, Seq::empty());
            assert(names(roster.take(0)) =~= Multiset::empty());
            assert(tallied(before.fails, Multiset::empty()) =~= before.fails);
        }
        self.count += 1;
        if stuck.is_empty() {
            self.success += 1;
        }
        for student in it: stuck
            invariant
                it.seq() == roster,
                self.fails.wf(),
                self.count == before.count + 1,
                self.success == merged(before, names(roster)).success,
                self.fails@ == tallied(before.fails, names(roster.take(it.index() as int))),
                representable(merged(before, names(roster))),
        {
            let ghost i = it.index() as int;
            let ghost sofar = names(roster.take(i));
            proof {
                lemma_roster_step(roster, i);
                lemma_names_prefix(roster, i + 1, student@.name);
                assert(failures(merged(before, names(roster)).fails, student@.name) <= usize::MAX);
                assert(sofar.insert(student@.name).count(student@.name) == sofar.count(
                    student@.name,
                ) + 1);
            }
            let name = student.into_name();
            self.fails.record(name, 1);
            proof {
                assert(self.fails@ =~= tallied(before.fails, sofar.insert(name@))) by {
                    assert forall|other: Seq<char>|
                        sofar.insert(name@).count(other) == sofar.count(other) + if other
                            == name@ {
                            1nat
                        } else {
                            0nat
                        } by {}
                }
            }
        }
        proof {
            assert(roster.take(roster.len() as int) =~= roster);
        }
    }

    /// Takes the statistics of `other` in: its trials are added to the count,
    /// its successes to the successes and its tallies to the tallies.
    pub fn absorb(&mut self, other: &State)
        requires
            old(self).wf(),
            other.wf(),
            representable(absorbed(old(self)@, other@)),
        ensures
            final(self).wf(),
            final(self)@ == absorbed(old(self)@, other@),
    {
        let ghost before = self@;
        let entries = other.fails.entries();
        proof {
            assert(tallies(entries@.take(0)) =~= Map::empty());
            assert(absorbed(before, StateView { fails: Map::empty(), ..other@ }).fails
                =~= before.fails);
        }
        self.count += other.count;
        self.success += other.success;
        let mut i: usize = 0;
        while i < entries.len()
            invariant
                i <= entries@.len(),
                distinct_names(entries@),
                tallies(entries@) == other@.fails,
                self.fails.wf(),
                self.count == before.count + other.count,
                self.success == before.success + other.success,
                self.fails@ == absorbed(
                    before,
                    StateView { fails: tallies(entries@.take(i as int)), ..other@ },
                ).fails,
                representable(absorbed(before, other@)),
            decreases entries@.len() - i,
        {
            let ghost prefix = entries@.take(i as int);
            let ghost name = entries@[i as int].0@;
            proof {
                lemma_position(entries@, i as int);
                assert(distinct_names(prefix)) by {
                    assert forall|a: int, b: int| 0 <= a < b < prefix.len() implies (
                    #[trigger] prefix[a]).0@ != (#[trigger] prefix[b]).0@ by {
                        assert(entries@[a].0@ != entries@[b].0@);
                    }
                }
                if listed(prefix, name) {
                    let k = choose|k: int|
                        0 <= k < prefix.len() && (#[trigger] prefix[k]).0@ == name;
                    assert(entries@[k].0@ != entries@[i as int].0@);
                }
                lemma_entry_added(prefix, entries@[i as int]);
                assert(entries@.take(i + 1) =~= prefix.push(entries@[i as int]));
                assert(failures(absorbed(before, other@).fails, name) <= usize::MAX);
            }
            self.fails.record(entries[i].0.clone(), entries[i].1);
            proof {
                assert(self.fails@ =~= absorbed(
                    before,
                    StateView { fails: tallies(entries@.take(i + 1)), ..other@ },
                ).fails);
            }
            i += 1;
        }
        proof {
            assert(entries@.take(entries@.len() as int) =~= entries@);
        }
    }
}

} // verus!
