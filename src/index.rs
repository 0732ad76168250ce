//! The in-memory index: each live key with its current value.
//!
//! The index is the fold of the log's commands, in log order: a `Put` makes
//! its key present with its value, a `Remove` makes its key absent.
use crate::command::{Command, CommandView};
use crate::err::{KvStoreError, KvStoreErrorKind};
use vstd::prelude::*;

verus! {

/// The effect of one command on the store's contents.
pub open spec fn apply_command(m: Map<Seq<char>, Seq<char>>, c: CommandView) -> Map<
    Seq<char>,
    Seq<char>,
> {
    match c {
        CommandView::Put { key, value } => m.insert(key, value),
        CommandView::Remove { key } => m.remove(key),
    }
}

/// The store's contents after the commands of `log`, applied in order to an
/// empty store.
pub open spec fn replay_spec(log: Seq<CommandView>) -> Map<Seq<char>, Seq<char>>
    decreases log.len(),
{
    if log.len() == 0 {
        Map::empty()
    } else {
        apply_command(replay_spec(log.drop_last()), log.last())
    }
}

/// The commands of `log` applied in order to the contents `m`.
pub open spec fn apply_all(m: Map<Seq<char>, Seq<char>>, log: Seq<CommandView>) -> Map<
    Seq<char>,
    Seq<char>,
>
    decreases log.len(),
{
    if log.len() == 0 {
        m
    } else {
        apply_all(apply_command(m, log[0]), log.drop_first())
    }
}

/// The views of a sequence of commands.
pub open spec fn views(cmds: Seq<Command>) -> Seq<CommandView> {
    cmds.map_values(|c: Command| c@)
}

/// What a live removal of `k` from the contents `m` gives: the command to
/// append where `k` is present, `KeyDoesNotExist` where it is absent.
pub open spec fn remove_outcome(m: Map<Seq<char>, Seq<char>>, k: Seq<char>) -> Result<
    CommandView,
    KvStoreErrorKind,
> {
    if m.contains_key(k) {
        Ok(CommandView::Remove { key: k })
    } else {
        Err(KvStoreErrorKind::KeyDoesNotExist)
    }
}

/// The in-memory index of a store: each live key with its current value.
pub struct KvIndex {
    entries: Vec<(String, String)>,
    contents: Ghost<Map<Seq<char>, Seq<char>>>,
}

impl View for KvIndex {
    type V = Map<Seq<char>, Seq<char>>;

    closed spec fn view(&self) -> Map<Seq<char>, Seq<char>> {
        self.contents@
    }
}

impl KvIndex {
    /// The entries hold each key once, and hold exactly the view.
    pub closed spec fn wf(&self) -> bool {
        &&& forall|i: int, j: int|
            0 <= i < j < self.entries@.len() ==> #[trigger] self.entries@[i].0@
                != #[trigger] self.entries@[j].0@
        &&& forall|i: int|
            0 <= i < self.entries@.len() ==> #[trigger] self.contents@.contains_key(
                self.entries@[i].0@,
            ) && self.contents@[self.entries@[i].0@] == self.entries@[i].1@
        &&& forall|k: Seq<char>|
            #[trigger] self.contents@.contains_key(k) ==> exists|i: int|
                0 <= i < self.entries@.len() && #[trigger] self.entries@[i].0@ == k
    }

    /// An empty index.
    pub fn new() -> (r: KvIndex)
        ensures
            r.wf(),
            r@ == Map::<Seq<char>, Seq<char>>::empty(),
    {
        KvIndex { entries: Vec::new(), contents: Ghost(Map::empty()) }
    }

    /// The position of `key` in the entries, if it is there.
    fn find(&self, key: &String) -> (r: Option<usize>)
        requires
            self.wf(),
        ensures
            match r {
                Some(i) => i < self.entries@.len() && self.entries@[i as int].0@ == key@,
                None => !self@.contains_key(key@),
            },
    {
        let mut i: usize = 0;
        while i < self.entries.len()
            invariant
                self.wf(),
                i <= self.entries@.len(),
                forall|j: int| 0 <= j < i ==> self.entries@[j].0@ != key@,
            decreases self.entries@.len() - i,
        {
            if self.entries[i].0 == *key {
                return Some(i);
            }
            i = i + 1;
        }
        None
    }

    /// Whether `key` is in the store.
    pub fn contains_key(&self, key: &String) -> (r: bool)
        requires
            self.wf(),
        ensures
            r == self@.contains_key(key@),
    {
        self.find(key).is_some()
    }

    /// The number of keys in the store.
    pub fn len(&self) -> (r: usize)
        requires
            self.wf(),
        ensures
            r == self@.dom().len(),
    {
        proof {
            self.lemma_len();
        }
        self.entries.len()
    }

    proof fn lemma_len(&self)
        requires
            self.wf(),
        ensures
            self@.dom().finite(),
            self@.dom().len() == self.entries@.len(),
    {
        let keys = self.entries@.map_values(|e: (String, String)| e.0@);
        assert forall|i: int, j: int| 0 <= i < j < keys.len() implies keys[i] != keys[j] by {
            assert(self.entries@[i].0@ != self.entries@[j].0@);
        }
        assert(keys.no_duplicates());
        assert(self@.dom() =~= keys.to_set()) by {
            assert forall|k: Seq<char>| self@.dom().contains(k) implies keys.to_set().contains(k) by {
                let i = choose|i: int| 0 <= i < self.entries@.len() && #[trigger] self.entries@[i].0@ == k;
                assert(keys[i] == k);
            }
            assert forall|k: Seq<char>| keys.to_set().contains(k) implies self@.dom().contains(k) by {
                let i = choose|i: int| 0 <= i < keys.len() && keys[i] == k;
                assert(self.contents@.contains_key(self.entries@[i].0@));
            }
        }
        keys.unique_seq_to_set();
    }

    /// The current value of `key`, or `None` where the key is absent.
    pub fn get(&self, key: &String) -> (r: Option<String>)
        requires
            self.wf(),
        ensures
            match r {
                Some(v) => self@.contains_key(key@) && v@ == self@[key@],
                None => !self@.contains_key(key@),
            },
    {
        match self.find(key) {
            Some(i) => {
                proof {
                    assert(self.contents@.contains_key(self.entries@[i as int].0@));
                }
                Some(self.entries[i].1.clone())
            },
            None => None,
        }
    }

    /// Makes `key` present with `value`, replacing any earlier value.
    pub fn set(&mut self, key: String, value: String)
        requires
            old(self).wf(),
        ensures
            final(self).wf(),
            final(self)@ == old(self)@.insert(key@, value@),
    {
        let ghost k = key@;
        let ghost v = value@;
        match self.find(&key) {
            Some(i) => {
                self.entries.set(i, (key, value));
                proof {
                    self.contents@ = self.contents@.insert(k, v);
                    assert forall|a: int, b: int|
                        0 <= a < b < self.entries@.len() implies #[trigger] self.entries@[a].0@
                            != #[trigger] self.entries@[b].0@ by {
                        assert(old(self).entries@[a].0@ != old(self).entries@[b].0@);
                    }
                    assert forall|j: int| 0 <= j < self.entries@.len() implies
                        #[trigger] self.contents@.contains_key(self.entries@[j].0@)
                        && self.contents@[self.entries@[j].0@] == self.entries@[j].1@ by {
                        if j != i {
                            assert(old(self).entries@[j].0@ != old(self).entries@[i as int].0@);
                        }
                    }
                    assert forall|kk: Seq<char>| #[trigger] self.contents@.contains_key(kk)
                        implies exists|j: int| 0 <= j < self.entries@.len() && #[trigger] self.entries@[j].0@ == kk by {
                        if kk != k {
                            let j = choose|j: int| 0 <= j < old(self).entries@.len() && #[trigger] old(self).entries@[j].0@ == kk;
                            assert(self.entries@[j].0@ == kk);
                        } else {
                            assert(self.entries@[i as int].0@ == kk);
                        }
                    }
                }
            },
            None => {
                self.entries.push((key, value));
                proof {
                    self.contents@ = self.contents@.insert(k, v);
                    let n = self.entries@.len() - 1;
                    assert forall|a: int, b: int|
                        0 <= a < b < self.entries@.len() implies #[trigger] self.entries@[a].0@
                            != #[trigger] self.entries@[b].0@ by {
                        if b == n {
                            assert(old(self).contents@.contains_key(old(self).entries@[a].0@));
                        } else {
                            assert(old(self).entries@[a].0@ != old(self).entries@[b].0@);
                        }
                    }
                    assert forall|j: int| 0 <= j < self.entries@.len() implies
                        #[trigger] self.contents@.contains_key(self.entries@[j].0@)
                        && self.contents@[self.entries@[j].0@] == self.entries@[j].1@ by {
                        if j != n {
                            assert(old(self).contents@.contains_key(old(self).entries@[j].0@));
                        }
                    }
                    assert forall|kk: Seq<char>| #[trigger] self.contents@.contains_key(kk)
                        implies exists|j: int| 0 <= j < self.entries@.len() && #[trigger] self.entries@[j].0@ == kk by {
                        if kk != k {
                            let j = choose|j: int| 0 <= j < old(self).entries@.len() && #[trigger] old(self).entries@[j].0@ == kk;
                            assert(self.entries@[j].0@ == kk);
                        } else {
                            assert(self.entries@[n].0@ == kk);
                        }
                    }
                }
            },
        }
    }

    /// Makes `key` absent; says whether it was present.
    pub fn remove(&mut self, key: &String) -> (r: bool)
        requires
            old(self).wf(),
        ensures
            final(self).wf(),
            r == old(self)@.contains_key(key@),
            final(self)@ == old(self)@.remove(key@),
    {
        match self.find(key) {
            Some(i) => {
                let ghost old_entries = self.entries@;
                let ghost last = (self.entries@.len() - 1) as int;
                self.entries.swap_remove(i);
                proof {
                    self.contents@ = self.contents@.remove(key@);
                    assert forall|a: int, b: int|
                        0 <= a < b < self.entries@.len() implies #[trigger] self.entries@[a].0@
                            != #[trigger] self.entries@[b].0@ by {
                        let oa = if a == i { last } else { a };
                        let ob = if b == i { last } else { b };
                        assert(old_entries[oa].0@ != old_entries[ob].0@);
                    }
                    assert forall|kk: Seq<char>| #[trigger] self.contents@.contains_key(kk)
                        implies exists|j: int| 0 <= j < self.entries@.len() && #[trigger] self.entries@[j].0@ == kk by {
                        let j = choose|j: int| 0 <= j < old_entries.len() && #[trigger] old_entries[j].0@ == kk;
                        if j == last {
                            assert(self.entries@[i as int].0@ == kk);
                        } else {
                            assert(self.entries@[j].0@ == kk);
                        }
                    }
                    assert forall|j: int| 0 <= j < self.entries@.len() implies
                        #[trigger] self.contents@.contains_key(self.entries@[j].0@)
                        && self.contents@[self.entries@[j].0@] == self.entries@[j].1@ by {
                        let oj = if j == i { last } else { j };
                        assert(old_entries[oj] == self.entries@[j]);
                        assert(old_entries[oj].0@ != old_entries[i as int].0@);
                    }
                }
                true
            },
            None => {
                proof {
                    assert(self.contents@ =~= self.contents@.remove(key@));
                }
                false
            },
        }
    }

    /// Folds one command of the log into the index. A `Remove` of an absent
    /// key leaves the index as it was.
    pub fn apply(&mut self, cmd: &Command)
        requires
            old(self).wf(),
        ensures
            final(self).wf(),
            final(self)@ == apply_command(old(self)@, cmd@),
    {
        match cmd {
            Command::Put { key, value } => {
                self.set(key.clone(), value.clone());
            },
            Command::Remove { key } => {
                self.remove(key);
            },
        }
    }

    /// Builds the index by folding the commands of `log` in order into an
    /// empty index.
    pub fn replay(log: &Vec<Command>) -> (r: KvIndex)
        ensures
            r.wf(),
            r@ == replay_spec(views(log@)),
    {
        let mut index = KvIndex::new();
        let mut i: usize = 0;
        while i < log.len()
            invariant
                i <= log@.len(),
                index.wf(),
                index@ == replay_spec(views(log@.take(i as int))),
            decreases log@.len() - i,
        {
            index.apply(&log[i]);
            proof {
                let t = views(log@.take(i + 1));
                assert(t.drop_last() =~= views(log@.take(i as int)));
                assert(t.last() == log@[i as int]@);
            }
            i = i + 1;
        }
        proof {
            assert(log@.take(log@.len() as int) =~= log@);
        }
        index
    }

    /// The command that removes `key`, where `key` is in the store; the
    /// error `KeyDoesNotExist` where it is not. The index is not changed:
    /// the command takes effect once the log holds it.
    pub fn remove_command(&self, key: String) -> (r: Result<Command, KvStoreError>)
        requires
            self.wf(),
        ensures
            match r {
                Ok(c) => remove_outcome(self@, key@) == Ok::<CommandView, KvStoreErrorKind>(c@),
                Err(e) => remove_outcome(self@, key@) == Err::<CommandView, KvStoreErrorKind>(e@),
            },
    {
        if self.contains_key(&key) {
            Ok(Command::Remove { key })
        } else {
            Err(KvStoreError::from(KvStoreErrorKind::KeyDoesNotExist))
        }
    }
}

/// Replaying a log that ends with `c` is replaying the rest and then `c`.
proof fn lemma_replay_push(log: Seq<CommandView>, c: CommandView)
    ensures
        replay_spec(log.push(c)) == apply_command(replay_spec(log), c),
{
    assert(log.push(c).drop_last() =~= log);
}

/// After `Put { key: k, value: v }` the store holds `k` with value `v`,
/// whatever came before it.
pub proof fn lemma_put_then_get(log: Seq<CommandView>, k: Seq<char>, v: Seq<char>)
    ensures
        replay_spec(log.push(CommandView::Put { key: k, value: v })).contains_key(k),
        replay_spec(log.push(CommandView::Put { key: k, value: v }))[k] == v,
{
    lemma_replay_push(log, CommandView::Put { key: k, value: v });
}

/// After a `Put` of `k` a live removal of `k` is accepted; once its `Remove`
/// is in the log the store does not hold `k`, and a second live removal of
/// `k` is refused with `KeyDoesNotExist`.
pub proof fn lemma_remove_after_put(log: Seq<CommandView>, k: Seq<char>, v: Seq<char>)
    ensures
        remove_outcome(replay_spec(log.push(CommandView::Put { key: k, value: v })), k) == Ok::<
            CommandView,
            KvStoreErrorKind,
        >(CommandView::Remove { key: k }),
        !replay_spec(
            log.push(CommandView::Put { key: k, value: v }).push(CommandView::Remove { key: k }),
        ).contains_key(k),
        remove_outcome(
            replay_spec(
                log.push(CommandView::Put { key: k, value: v }).push(
                    CommandView::Remove { key: k },
                ),
            ),
            k,
        ) == Err::<CommandView, KvStoreErrorKind>(KvStoreErrorKind::KeyDoesNotExist),
{
    let l1 = log.push(CommandView::Put { key: k, value: v });
    lemma_replay_push(log, CommandView::Put { key: k, value: v });
    lemma_replay_push(l1, CommandView::Remove { key: k });
}

/// Of two `Put`s of one key, the later one wins.
pub proof fn lemma_last_put_wins(
    log: Seq<CommandView>,
    k: Seq<char>,
    a: Seq<char>,
    b: Seq<char>,
)
    ensures
        replay_spec(
            log.push(CommandView::Put { key: k, value: a }).push(
                CommandView::Put { key: k, value: b },
            ),
        ).contains_key(k),
        replay_spec(
            log.push(CommandView::Put { key: k, value: a }).push(
                CommandView::Put { key: k, value: b },
            ),
        )[k] == b,
{
    lemma_put_then_get(log.push(CommandView::Put { key: k, value: a }), k, b);
}

/// Applying commands one by one to the store that a log replays to gives
/// the store that the log extended with those commands replays to: reopening
/// a store reproduces its live contents exactly.
pub proof fn lemma_replay_equivalence(log: Seq<CommandView>, ops: Seq<CommandView>)
    ensures
        apply_all(replay_spec(log), ops) == replay_spec(log + ops),
    decreases ops.len(),
{
    if ops.len() == 0 {
        assert(log + ops =~= log);
    } else {
        lemma_replay_push(log, ops[0]);
        lemma_replay_equivalence(log.push(ops[0]), ops.drop_first());
        assert(log.push(ops[0]) + ops.drop_first() =~= log + ops);
    }
}

/// A key that no `Put` of the log names is absent from the store.
pub proof fn lemma_never_put_is_absent(log: Seq<CommandView>, k: Seq<char>)
    requires
        forall|i: int|
            0 <= i < log.len() ==> !(#[trigger] log[i] is Put && log[i].key() == k),
    ensures
        !replay_spec(log).contains_key(k),
    decreases log.len(),
{
    if log.len() > 0 {
        let init = log.drop_last();
        assert(forall|i: int| 0 <= i < init.len() ==> init[i] == log[i]);
        lemma_never_put_is_absent(init, k);
    }
}

} // verus!
