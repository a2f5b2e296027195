//! The command-line argument table: each known word of the command line,
//! whether it takes a value, the value it was given, and what it runs.

use vstd::prelude::*;

verus! {

/// The version of the program, as `version` reports it.
pub const VERSION: &'static str = "3.0.5";

/// What an argument runs when it is called.
#[derive(Clone, Copy, Debug, PartialEq, Eq, Structural)]
pub enum Callback {
    Init,
    Get,
    Version,
    Password,
    Remove,
    Name,
    Create,
    Description,
    Key,
}

/// The mathematical model of an [`ArgAction`].
pub struct ActionView {
    pub key: Seq<char>,
    pub value: Seq<char>,
    pub only_key: bool,
    pub used: bool,
    pub callback: Option<Callback>,
    pub next: Seq<char>,
    pub description: Seq<char>,
    pub order: usize,
    pub priority: usize,
}

/// One known word of the command line.
#[derive(Debug)]
pub struct ArgAction {
    key: &'static str,
    value: String,
    only_key: bool,
    used: bool,
    callback: Option<Callback>,
    next: String,
    description: &'static str,
    order: usize,
    priority: usize,
}

impl View for ArgAction {
    type V = ActionView;

    closed spec fn view(&self) -> ActionView {
        ActionView {
            key: self.key@,
            value: self.value@,
            only_key: self.only_key,
            used: self.used,
            callback: self.callback,
            next: self.next@,
            description: self.description@,
            order: self.order,
            priority: self.priority,
        }
    }
}

/// The model of a freshly declared argument: value "TMP", unused, no next
/// argument, order 0.
pub open spec fn fresh_action(
    key: Seq<char>,
    callback: Option<Callback>,
    only_key: bool,
    description: Seq<char>,
    priority: usize,
) -> ActionView {
    ActionView {
        key,
        value: "TMP"@,
        only_key,
        used: false,
        callback,
        next: Seq::empty(),
        description,
        order: 0,
        priority,
    }
}

impl Clone for ArgAction {
    /// A copy of the argument, field for field.
    fn clone(&self) -> (res: Self)
        ensures
            res@ == self@,
    {
        proof {
            use_type_invariant(self);
        }
        ArgAction {
            key: self.key,
            value: self.value.clone(),
            only_key: self.only_key,
            used: self.used,
            callback: self.callback,
            next: self.next.clone(),
            description: self.description,
            order: self.order,
            priority: self.priority,
        }
    }
}

impl ArgAction {
    /// The entry's callback, where it reads a key, reads the entry's own key.
    #[verifier::type_invariant]
    spec fn reads_own_key(self) -> bool {
        entry_consistent(self@)
    }

    fn new(
        key: &'static str,
        callback: Option<Callback>,
        only_key: bool,
        description: &'static str,
        priority: usize,
    ) -> (res: (&'static str, ArgAction))
        requires
            callback matches Some(c) ==> (callback_key(c) matches Some(k) ==> key@ == k),
        ensures
            res.0@ == key@,
            res.1@ == fresh_action(key@, callback, only_key, description@, priority),
    {
        (
            key,
            ArgAction {
                key,
                value: String::from_str("TMP"),
                callback,
                used: false,
                only_key,
                next: String::new(),
                description,
                order: 0,
                priority,
            },
        )
    }

    /// Whether the argument was given on the command line.
    #[allow(non_snake_case)]
    pub fn isActive(&self) -> (res: bool)
        ensures
            res == self@.used,
    {
        self.used
    }

    fn active(&mut self)
        ensures
            final(self)@ == (ActionView { used: true, ..old(self)@ }),
    {
        proof {
            use_type_invariant(&*self);
        }
        self.used = true;
    }

    pub fn get_key(&self) -> (res: &str)
        ensures
            res@ == self@.key,
    {
        self.key
    }

    pub fn set_value(&mut self, value: String)
        ensures
            final(self)@ == (ActionView { value: value@, ..old(self)@ }),
    {
        proof {
            use_type_invariant(&*self);
        }
        self.value = value;
    }

    pub fn get_priority(&self) -> (res: usize)
        ensures
            res == self@.priority,
    {
        self.priority
    }

    pub fn set_next(&mut self, next: String)
        ensures
            final(self)@ == (ActionView { next: next@, ..old(self)@ }),
    {
        proof {
            use_type_invariant(&*self);
        }
        self.next = next;
    }

    pub fn get_next(&self) -> (res: &str)
        ensures
            res@ == self@.next,
    {
        self.next.as_str()
    }

    pub fn set_priority(&mut self, value: usize)
        ensures
            final(self)@ == (ActionView { priority: value, ..old(self)@ }),
    {
        proof {
            use_type_invariant(&*self);
        }
        self.priority = value;
    }

    pub fn set_order(&mut self, value: usize)
        ensures
            final(self)@ == (ActionView { order: value, ..old(self)@ }),
    {
        proof {
            use_type_invariant(&*self);
        }
        self.order = value;
    }

    pub fn get_order(&self) -> (res: usize)
        ensures
            res == self@.order,
    {
        self.order
    }

    pub fn get_desc(&self) -> (res: &'static str)
        ensures
            res@ == self@.description,
    {
        self.description
    }

    /// A copy of the argument's value.
    pub fn get_value(&self) -> (res: String)
        ensures
            res@ == self@.value,
    {
        self.value.clone()
    }
}

/// The position of the first entry whose key is `k`, or -1.
pub open spec fn index_of(t: Seq<ActionView>, k: Seq<char>) -> int
    decreases t.len(),
{
    if t.len() == 0 {
        -1
    } else if t.last().key == k {
        let r = index_of(t.drop_last(), k);
        if r >= 0 { r } else { t.len() - 1 }
    } else {
        index_of(t.drop_last(), k)
    }
}

/// Whether some entry has the key `k`.
pub open spec fn has_key(t: Seq<ActionView>, k: Seq<char>) -> bool {
    exists|i: int| 0 <= i < t.len() && #[trigger] t[i].key == k
}

/// No two entries share a key.
pub open spec fn keys_unique(t: Seq<ActionView>) -> bool {
    forall|i: int, j: int| 0 <= i < t.len() && 0 <= j < t.len() && i != j ==> #[trigger] t[i].key != #[trigger] t[j].key
}

/// What `index_of` computes: the first position holding the key.
pub proof fn lemma_index_of(t: Seq<ActionView>, k: Seq<char>)
    ensures
        -1 <= index_of(t, k) < t.len(),
        index_of(t, k) >= 0 ==> t[index_of(t, k)].key == k,
        forall|j: int| 0 <= j < index_of(t, k) ==> t[j].key != k,
        index_of(t, k) == -1 <==> !has_key(t, k),
    decreases t.len(),
{
    if t.len() > 0 {
        let p = t.drop_last();
        lemma_index_of(p, k);
        assert forall|j: int| 0 <= j < p.len() implies p[j] == t[j] by {}
        if has_key(t, k) && index_of(t, k) == -1 {
            let w = choose|i: int| 0 <= i < t.len() && #[trigger] t[i].key == k;
            if w < p.len() {
                assert(p[w].key == k);
            }
        }
        if has_key(p, k) {
            let w = choose|i: int| 0 <= i < p.len() && #[trigger] p[i].key == k;
            assert(t[w].key == k);
        }
        if t.last().key == k {
            assert(t[t.len() - 1].key == k);
        }
    }
}

/// The argument table: the known words, in the order they were declared,
/// no key twice. It is kept in a vector rather than a `HashMap` keyed by
/// the word because vstd models hash-map contents only for integer and
/// `bool` keys, not for `&str`; the order of the vector also fixes the one
/// order in which the table is walked.
#[derive(Debug)]
pub struct ArgMap {
    entries: Vec<ArgAction>,
}

impl View for ArgMap {
    type V = Seq<ActionView>;

    closed spec fn view(&self) -> Seq<ActionView> {
        self.entries@.map_values(|a: ArgAction| a@)
    }
}

proof fn lemma_update_keeps_form(t: Seq<ActionView>, i: int, a: ActionView)
    requires
        0 <= i < t.len(),
        a.key == t[i].key,
        a.callback == t[i].callback,
        keys_unique(t),
        consistent(t),
    ensures
        keys_unique(t.update(i, a)),
        consistent(t.update(i, a)),
{
    let u = t.update(i, a);
    assert forall|j: int| 0 <= j < u.len() implies u[j].key == t[j].key && u[j].callback == t[j].callback by {}
    assert forall|j: int| 0 <= j < u.len() implies entry_consistent(#[trigger] u[j]) by {
        assert(entry_consistent(t[j]));
    }
    assert forall|j: int, k: int| 0 <= j < u.len() && 0 <= k < u.len() && j != k implies #[trigger] u[j].key
        != #[trigger] u[k].key by {
        assert(t[j].key != t[k].key);
    }
}

impl ArgMap {
    /// No two entries share a key, and each callback reads its own entry.
    #[verifier::type_invariant]
    spec fn well_formed(self) -> bool {
        keys_unique(self@) && consistent(self@)
    }

    /// An empty table.
    pub fn new() -> (res: ArgMap)
        ensures
            res@ == Seq::<ActionView>::empty(),
    {
        let res = ArgMap { entries: Vec::new() };
        assert(res@ =~= Seq::<ActionView>::empty());
        res
    }

    /// The number of entries.
    pub fn len(&self) -> (res: usize)
        ensures
            res == self@.len(),
    {
        self.entries.len()
    }

    /// The position of the entry with the key `key`.
    pub fn position(&self, key: &str) -> (res: Option<usize>)
        ensures
            match res {
                Some(i) => i as int == index_of(self@, key@),
                None => index_of(self@, key@) == -1,
            },
    {
        let n: usize = self.entries.len();
        let mut i: usize = 0;
        proof {
            lemma_index_of(self@, key@);
        }
        while i < n
            invariant
                n == self@.len(),
                i <= n,
                forall|j: int| 0 <= j < i ==> self@[j].key != key@,
                -1 <= index_of(self@, key@) < self@.len(),
                index_of(self@, key@) >= 0 ==> self@[index_of(self@, key@)].key == key@,
                forall|j: int| 0 <= j < index_of(self@, key@) ==> self@[j].key != key@,
                index_of(self@, key@) == -1 <==> !has_key(self@, key@),
            decreases n - i,
        {
            let found: bool = crate::text::str_equal(self.entries[i].key, key);
            assert(self@[i as int] == self.entries@[i as int]@);
            if found {
                proof {
                    assert(self@[i as int].key == key@);
                    assert(has_key(self@, key@));
                }
                return Some(i);
            }
            i = i + 1;
        }
        proof {
            if index_of(self@, key@) >= 0 {
                assert(self@[index_of(self@, key@)].key == key@);
            }
        }
        None
    }

    /// The entry with the key `key`, if there is one.
    pub fn get(&self, key: &str) -> (res: Option<&ArgAction>)
        ensures
            match res {
                Some(a) => index_of(self@, key@) >= 0 && a@ == self@[index_of(self@, key@)],
                None => index_of(self@, key@) == -1,
            },
    {
        match self.position(key) {
            Some(i) => {
                proof {
                    lemma_index_of(self@, key@);
                }
                Some(&self.entries[i])
            },
            None => None,
        }
    }
}


/// The table after declaring `a`: an entry with the same key is replaced in
/// place, a new key goes to the end.
pub open spec fn insert_action(t: Seq<ActionView>, a: ActionView) -> Seq<ActionView> {
    let i = index_of(t, a.key);
    if i >= 0 {
        t.update(i, a)
    } else {
        t.push(a)
    }
}

/// The table that declaring each action of `list` in turn builds.
pub open spec fn table_of(list: Seq<ActionView>) -> Seq<ActionView>
    decreases list.len(),
{
    if list.len() == 0 {
        Seq::empty()
    } else {
        insert_action(table_of(list.drop_last()), list.last())
    }
}

/// The key that an argument's callback reads from the table, if any.
pub open spec fn callback_key(c: Callback) -> Option<Seq<char>> {
    match c {
        Callback::Name => Some("name"@),
        Callback::Description => Some("description"@),
        Callback::Key => Some("key"@),
        Callback::Password => Some("password"@),
        _ => None,
    }
}

/// Each entry whose callback reads a key is the entry of that key.
pub open spec fn consistent(t: Seq<ActionView>) -> bool {
    forall|i: int| 0 <= i < t.len() ==> entry_consistent(#[trigger] t[i])
}

/// An entry whose callback reads a key is the entry of that key.
pub open spec fn entry_consistent(a: ActionView) -> bool {
    a.callback matches Some(c) ==> (callback_key(c) matches Some(k) ==> a.key == k)
}

pub proof fn lemma_insert_action(t: Seq<ActionView>, a: ActionView)
    ensures
        keys_unique(t) ==> keys_unique(insert_action(t, a)),
        consistent(t) && consistent(seq![a]) ==> consistent(insert_action(t, a)),
{
    lemma_index_of(t, a.key);
    let r = insert_action(t, a);
    if consistent(t) && consistent(seq![a]) {
        assert(seq![a][0] == a);
        assert forall|i: int| 0 <= i < r.len() implies entry_consistent(#[trigger] r[i]) by {
            if r[i] != a {
                assert(r[i] == t[i]);
            }
        }
    }
    if keys_unique(t) {
        assert forall|i: int, j: int| 0 <= i < r.len() && 0 <= j < r.len() && i != j implies #[trigger] r[i].key != #[trigger] r[j].key by {
            if index_of(t, a.key) < 0 {
                if i == t.len() {
                    assert(!has_key(t, a.key));
                    assert(t[j].key != a.key);
                } else if j == t.len() {
                    assert(!has_key(t, a.key));
                    assert(t[i].key != a.key);
                }
            }
        }
    }
}

pub proof fn lemma_table_of(list: Seq<ActionView>)
    ensures
        keys_unique(table_of(list)),
        consistent(list) ==> consistent(table_of(list)),
    decreases list.len(),
{
    if list.len() > 0 {
        let p = list.drop_last();
        lemma_table_of(p);
        lemma_insert_action(table_of(p), list.last());
        if consistent(list) {
            assert forall|i: int| 0 <= i < p.len() implies entry_consistent(#[trigger] p[i]) by {
                assert(p[i] == list[i]);
            }
            let one = seq![list.last()];
            assert forall|i: int| 0 <= i < one.len() implies entry_consistent(#[trigger] one[i]) by {
                assert(one[i] == list[list.len() - 1]);
            }
        }
    }
}

impl ArgMap {
    /// Declares `a`: an entry with the same key is replaced in place, a new
    /// key goes to the end.
    pub fn insert(&mut self, a: ArgAction)
        ensures
            final(self)@ == insert_action(old(self)@, a@),
    {
        let ghost av = a@;
        let ghost before = self@;
        proof {
            use_type_invariant(&*self);
            use_type_invariant(&a);
            lemma_index_of(before, av.key);
            assert(seq![av][0] == av);
            assert(consistent(seq![av]));
            lemma_insert_action(before, av);
        }
        let pos = self.position(a.key);
        let mut entries: Vec<ArgAction> = Vec::new();
        std::mem::swap(&mut entries, &mut self.entries);
        assert(entries@.map_values(|e: ArgAction| e@) =~= before);
        match pos {
            Some(i) => {
                entries.set(i, a);
                assert(entries@.map_values(|e: ArgAction| e@) =~= before.update(i as int, av));
            },
            None => {
                entries.push(a);
                assert(entries@.map_values(|e: ArgAction| e@) =~= before.push(av));
            },
        }
        self.entries = entries;
    }

    /// Builds the table by declaring each action of `list` in turn.
    pub fn from_actions(list: Vec<ArgAction>) -> (res: ArgMap)
        ensures
            res@ == table_of(list@.map_values(|a: ArgAction| a@)),
    {
        let ghost all = list@.map_values(|a: ArgAction| a@);
        let mut rest = list;
        let mut res = ArgMap::new();
        let mut k: usize = 0;
        let n: usize = rest.len();
        while rest.len() > 0
            invariant
                all.len() == n,
                k + rest@.len() == n,
                rest@.map_values(|a: ArgAction| a@) =~= all.skip(k as int),
                res@ == table_of(all.take(k as int)),
            decreases rest@.len(),
        {
            let ghost pre = rest@;
            let a = rest.remove(0);
            proof {
                assert(pre.map_values(|a: ArgAction| a@)[0] == pre[0]@);
                assert(all.skip(k as int)[0] == all[k as int]);
                assert(a@ == all[k as int]);
                assert(rest@ =~= pre.drop_first());
                assert forall|j: int| 0 <= j < rest@.len() implies #[trigger] rest@[j]@ == all[k + 1 + j] by {
                    assert(pre.map_values(|a: ArgAction| a@)[j + 1] == pre[j + 1]@);
                    assert(all.skip(k as int)[j + 1] == all[k + 1 + j]);
                }
                assert(rest@.map_values(|a: ArgAction| a@) =~= all.skip(k + 1));
                assert(all.take(k + 1).drop_last() =~= all.take(k as int));
                assert(all.take(k + 1).last() == all[k as int]);
            }
            res.insert(a);
            k = k + 1;
            assert(rest@.map_values(|a: ArgAction| a@) =~= all.skip(k as int));
        }
        assert(all.take(n as int) =~= all);
        res
    }

    fn activate_at(&mut self, i: usize, order: usize)
        requires
            i < old(self)@.len(),
        ensures
            final(self)@ == old(self)@.update(i as int, ActionView { order, used: true, ..old(self)@[i as int] }),
    {
        let ghost before = self@;
        proof {
            use_type_invariant(&*self);
        }
        let mut entries: Vec<ArgAction> = Vec::new();
        std::mem::swap(&mut entries, &mut self.entries);
        assert(entries@.map_values(|e: ArgAction| e@) =~= before);
        assert(entries@[i as int]@ == before[i as int]);
        let mut a = entries.remove(i);
        a.set_order(order);
        a.active();
        let ghost av = a@;
        entries.insert(i, a);
        assert(entries@.map_values(|e: ArgAction| e@) =~= before.update(i as int, av));
        proof {
            lemma_update_keeps_form(before, i as int, av);
        }
        self.entries = entries;
    }

    fn set_next_at(&mut self, i: usize, next: String)
        requires
            i < old(self)@.len(),
        ensures
            final(self)@ == old(self)@.update(i as int, ActionView { next: next@, ..old(self)@[i as int] }),
    {
        let ghost before = self@;
        proof {
            use_type_invariant(&*self);
        }
        let mut entries: Vec<ArgAction> = Vec::new();
        std::mem::swap(&mut entries, &mut self.entries);
        assert(entries@.map_values(|e: ArgAction| e@) =~= before);
        assert(entries@[i as int]@ == before[i as int]);
        let mut a = entries.remove(i);
        a.set_next(next);
        let ghost av = a@;
        entries.insert(i, a);
        assert(entries@.map_values(|e: ArgAction| e@) =~= before.update(i as int, av));
        proof {
            lemma_update_keeps_form(before, i as int, av);
        }
        self.entries = entries;
    }

    fn set_value_at(&mut self, i: usize, value: String)
        requires
            i < old(self)@.len(),
        ensures
            final(self)@ == old(self)@.update(i as int, ActionView { value: value@, ..old(self)@[i as int] }),
    {
        let ghost before = self@;
        proof {
            use_type_invariant(&*self);
        }
        let mut entries: Vec<ArgAction> = Vec::new();
        std::mem::swap(&mut entries, &mut self.entries);
        assert(entries@.map_values(|e: ArgAction| e@) =~= before);
        assert(entries@[i as int]@ == before[i as int]);
        let mut a = entries.remove(i);
        a.set_value(value);
        let ghost av = a@;
        entries.insert(i, a);
        assert(entries@.map_values(|e: ArgAction| e@) =~= before.update(i as int, av));
        proof {
            lemma_update_keeps_form(before, i as int, av);
        }
        self.entries = entries;
    }

    fn is_used_at(&self, i: usize) -> (res: bool)
        requires
            i < self@.len(),
        ensures
            res == self@[i as int].used,
    {
        self.entries[i].used
    }

    fn only_key_at(&self, i: usize) -> (res: bool)
        requires
            i < self@.len(),
        ensures
            res == self@[i as int].only_key,
    {
        self.entries[i].only_key
    }
}


/// The arguments that the program knows, in the order it declares them.
/// `get` is declared twice; the second declaration is the one that stays.
pub open spec fn declared_actions() -> Seq<ActionView> {
    seq![
        fresh_action("init"@, Some(Callback::Init), true, "To initilize the password environment"@, 1),
        fresh_action("get"@, Some(Callback::Get), false, "To get the password information"@, 1),
        fresh_action("version"@, Some(Callback::Version), true, "print the program's version"@, 1),
        fresh_action("get"@, Some(Callback::Get), true, "get the password by name"@, 1),
        fresh_action("password"@, Some(Callback::Password), false, "set the password"@, 0),
        fresh_action("remove"@, Some(Callback::Remove), false, "remove data [name, all, date]"@, 1),
        fresh_action("name"@, Some(Callback::Name), false, "set a name for password [text]"@, 0),
        fresh_action("create"@, Some(Callback::Create), true, "create a new password"@, 1),
        fresh_action("description"@, Some(Callback::Description), false, "set description for password [text]"@, 0),
        fresh_action("key"@, Some(Callback::Key), false, "set key to encrypt the passwords [text]"@, 0),
        fresh_action("all"@, None, true, "select all"@, 0),
    ]
}

/// The table of known arguments before any is given.
pub open spec fn declared_table() -> Seq<ActionView> {
    table_of(declared_actions())
}

/// Where the parser stands between two words of the command line.
pub struct ParseState {
    /// The argument table so far.
    pub table: Seq<ActionView>,
    /// Whether the next word must be a known argument (else it is a value).
    pub expect_key: bool,
    /// The last argument read ("" after a value).
    pub pending: Seq<char>,
    /// How many arguments have been read.
    pub count: nat,
}

/// Reads one word of the command line. A word where an argument is expected
/// must be a known argument (else `None`); it is marked used, numbered, and
/// recorded as the `next` of the argument before it. A word after an
/// argument that takes a value becomes that argument's value.
pub open spec fn parse_step(s: ParseState, tok: Seq<char>) -> Option<ParseState> {
    if s.expect_key {
        let i = index_of(s.table, tok);
        if i < 0 {
            None
        } else {
            let count = s.count + 1;
            let t1 = s.table.update(i, ActionView { order: count as usize, used: true, ..s.table[i] });
            let j = index_of(t1, s.pending);
            let t2 = if s.pending.len() != 0 && j >= 0 {
                t1.update(j, ActionView { next: tok, ..t1[j] })
            } else {
                t1
            };
            Some(ParseState { table: t2, expect_key: s.table[i].only_key, pending: tok, count })
        }
    } else {
        let j = index_of(s.table, s.pending);
        let t = if j >= 0 && s.table[j].used {
            s.table.update(j, ActionView { value: tok, ..s.table[j] })
        } else {
            s.table
        };
        Some(ParseState { table: t, expect_key: true, pending: Seq::empty(), count: s.count })
    }
}

/// Reads the words `toks` in turn; `None` as soon as one is refused.
pub open spec fn parse_run(s: ParseState, toks: Seq<Seq<char>>) -> Option<ParseState>
    decreases toks.len(),
{
    if toks.len() == 0 {
        Some(s)
    } else {
        match parse_step(s, toks[0]) {
            Some(n) => parse_run(n, toks.drop_first()),
            None => None,
        }
    }
}

/// The state before the first word.
pub open spec fn start_state(t: Seq<ActionView>) -> ParseState {
    ParseState { table: t, expect_key: true, pending: Seq::empty(), count: 0 }
}

/// The entries that were given on the command line, in table order.
pub open spec fn active_only(t: Seq<ActionView>) -> Seq<ActionView>
    decreases t.len(),
{
    if t.len() == 0 {
        Seq::empty()
    } else if t.last().used {
        active_only(t.drop_last()).push(t.last())
    } else {
        active_only(t.drop_last())
    }
}

/// The table that a command line (program path first) yields, or `None`
/// where a word stands in an argument's place that is no known argument.
pub open spec fn parse_arguments(args: Seq<Seq<char>>) -> Option<Seq<ActionView>> {
    match parse_run(start_state(declared_table()), args.skip(1)) {
        Some(st) => Some(active_only(st.table)),
        None => None,
    }
}

/// The words of a command line as character sequences.
pub open spec fn words(args: Seq<String>) -> Seq<Seq<char>> {
    args.map_values(|s: String| s@)
}

/// Two tables with the same entries up to what parsing may change (value,
/// use, next and order).
pub open spec fn same_shape(a: Seq<ActionView>, b: Seq<ActionView>) -> bool {
    &&& a.len() == b.len()
    &&& forall|i: int|
        0 <= i < a.len() ==> {
            &&& (#[trigger] a[i]).key == b[i].key
            &&& a[i].only_key == b[i].only_key
            &&& a[i].callback == b[i].callback
            &&& a[i].description == b[i].description
            &&& a[i].priority == b[i].priority
        }
}

pub proof fn lemma_shape_keeps(a: Seq<ActionView>, b: Seq<ActionView>)
    requires
        same_shape(a, b),
    ensures
        keys_unique(a) ==> keys_unique(b),
        consistent(a) ==> consistent(b),
        forall|k: Seq<char>| index_of(a, k) == index_of(b, k),
{
    assert forall|k: Seq<char>| index_of(a, k) == index_of(b, k) by {
        lemma_index_of(a, k);
        lemma_index_of(b, k);
        if index_of(a, k) >= 0 {
            assert(b[index_of(a, k)].key == k);
            assert(has_key(b, k));
        }
        if index_of(b, k) >= 0 {
            assert(a[index_of(b, k)].key == k);
            assert(has_key(a, k));
        }
    }
    if consistent(a) {
        assert forall|i: int| 0 <= i < b.len() implies entry_consistent(#[trigger] b[i]) by {
            assert(a[i].key == b[i].key);
        }
    }
    if keys_unique(a) {
        assert forall|i: int, j: int| 0 <= i < b.len() && 0 <= j < b.len() && i != j implies #[trigger] b[i].key != #[trigger] b[j].key by {
            assert(a[i].key != a[j].key);
        }
    }
}

pub proof fn lemma_step_shape(s: ParseState, tok: Seq<char>)
    ensures
        parse_step(s, tok) matches Some(n) ==> same_shape(s.table, n.table),
{
    if s.expect_key {
        let i = index_of(s.table, tok);
        lemma_index_of(s.table, tok);
        if i >= 0 {
            let t1 = s.table.update(i, ActionView { order: (s.count + 1) as usize, used: true, ..s.table[i] });
            lemma_index_of(t1, s.pending);
        }
    } else {
        lemma_index_of(s.table, s.pending);
    }
}

pub proof fn lemma_run_shape(s: ParseState, toks: Seq<Seq<char>>)
    ensures
        parse_run(s, toks) matches Some(n) ==> same_shape(s.table, n.table),
    decreases toks.len(),
{
    if toks.len() > 0 {
        lemma_step_shape(s, toks[0]);
        if let Some(m) = parse_step(s, toks[0]) {
            lemma_run_shape(m, toks.drop_first());
        }
    }
}

pub proof fn lemma_active_only_from(t: Seq<ActionView>)
    ensures
        forall|i: int| 0 <= i < active_only(t).len() ==> (#[trigger] active_only(t)[i]).used,
        forall|i: int|
            #![trigger active_only(t)[i]]
            0 <= i < active_only(t).len() ==> exists|j: int| 0 <= j < t.len() && #[trigger] t[j] == active_only(t)[i],
    decreases t.len(),
{
    if t.len() > 0 {
        let p = t.drop_last();
        lemma_active_only_from(p);
        let r = active_only(t);
        let rp = active_only(p);
        assert forall|i: int| #![trigger r[i]] 0 <= i < r.len() implies r[i].used && exists|j: int| 0 <= j < t.len() && #[trigger] t[j] == r[i] by {
            if i < rp.len() {
                assert(r[i] == rp[i]);
                let j = choose|j: int| 0 <= j < p.len() && #[trigger] p[j] == rp[i];
                assert(t[j] == p[j]);
            } else {
                assert(t[t.len() - 1] == r[i]);
            }
        }
    }
}

pub proof fn lemma_active_only_complete(t: Seq<ActionView>)
    ensures
        forall|j: int| 0 <= j < t.len() && (#[trigger] t[j]).used ==> exists|i: int| 0 <= i < active_only(t).len() && active_only(t)[i] == t[j],
    decreases t.len(),
{
    if t.len() > 0 {
        let p = t.drop_last();
        lemma_active_only_complete(p);
        let r = active_only(t);
        let rp = active_only(p);
        assert forall|j: int| 0 <= j < t.len() && (#[trigger] t[j]).used implies exists|i: int| 0 <= i < r.len() && r[i] == t[j] by {
            if j < p.len() {
                assert(p[j] == t[j]);
                let i = choose|i: int| 0 <= i < rp.len() && rp[i] == p[j];
                assert(r[i] == rp[i]);
            } else {
                assert(r[r.len() - 1] == t[j]);
            }
        }
    }
}

pub proof fn lemma_active_only_unique(t: Seq<ActionView>)
    requires
        keys_unique(t),
    ensures
        keys_unique(active_only(t)),
    decreases t.len(),
{
    if t.len() > 0 {
        let p = t.drop_last();
        assert forall|i: int, j: int| 0 <= i < p.len() && 0 <= j < p.len() && i != j implies #[trigger] p[i].key != #[trigger] p[j].key by {
            assert(t[i].key != t[j].key);
        }
        lemma_active_only_unique(p);
        lemma_active_only_from(p);
        let r = active_only(t);
        let rp = active_only(p);
        if t.last().used {
            assert forall|i: int, j: int| 0 <= i < r.len() && 0 <= j < r.len() && i != j implies #[trigger] r[i].key != #[trigger] r[j].key by {
                if i < rp.len() && j < rp.len() {
                    assert(r[i] == rp[i] && r[j] == rp[j]);
                } else if i < rp.len() {
                    let a = choose|a: int| 0 <= a < p.len() && #[trigger] p[a] == rp[i];
                    assert(r[i] == rp[i]);
                    assert(t[a] == r[i]);
                    assert(t[t.len() - 1] == r[j]);
                } else {
                    let a = choose|a: int| 0 <= a < p.len() && #[trigger] p[a] == rp[j];
                    assert(r[j] == rp[j]);
                    assert(t[a] == r[j]);
                    assert(t[t.len() - 1] == r[i]);
                }
            }
        }
    }
}

pub proof fn lemma_active_only_consistent(t: Seq<ActionView>)
    requires
        consistent(t),
    ensures
        consistent(active_only(t)),
{
    lemma_active_only_from(t);
    let r = active_only(t);
    assert forall|i: int| 0 <= i < r.len() implies entry_consistent(#[trigger] r[i]) by {
        let j = choose|j: int| 0 <= j < t.len() && #[trigger] t[j] == r[i];
        assert(t[j] == r[i]);
    }
}

fn declared_list() -> (res: Vec<ArgAction>)
    ensures
        res@.map_values(|a: ArgAction| a@) == declared_actions(),
{
    let mut list: Vec<ArgAction> = Vec::new();
    list.push(ArgAction::new("init", Some(Callback::Init), true, "To initilize the password environment", 1).1);
    list.push(ArgAction::new("get", Some(Callback::Get), false, "To get the password information", 1).1);
    list.push(ArgAction::new("version", Some(Callback::Version), true, "print the program's version", 1).1);
    list.push(ArgAction::new("get", Some(Callback::Get), true, "get the password by name", 1).1);
    list.push(ArgAction::new("password", Some(Callback::Password), false, "set the password", 0).1);
    list.push(ArgAction::new("remove", Some(Callback::Remove), false, "remove data [name, all, date]", 1).1);
    list.push(ArgAction::new("name", Some(Callback::Name), false, "set a name for password [text]", 0).1);
    list.push(ArgAction::new("create", Some(Callback::Create), true, "create a new password", 1).1);
    list.push(ArgAction::new("description", Some(Callback::Description), false, "set description for password [text]", 0).1);
    list.push(ArgAction::new("key", Some(Callback::Key), false, "set key to encrypt the passwords [text]", 0).1);
    list.push(ArgAction::new("all", None, true, "select all", 0).1);
    assert(list@.map_values(|a: ArgAction| a@) =~= declared_actions());
    list
}

/// Parses a command line (program path first) against the known arguments.
/// Returns the table of the arguments that were given and the first word
/// after the program path, or an error where a word stands in an argument's
/// place that is no known argument.
pub fn argument_parser(args: Vec<String>) -> (res: Result<(ArgMap, String), String>)
    requires
        args.len() >= 2,
    ensures
        match parse_arguments(words(args@)) {
            None => res matches Err(e) && e@ == "Please provide valid arguents"@,
            Some(t) => res matches Ok((m, master)) && m@ == t && master@ == args@[1]@,
        },
        res matches Ok((m, _)) ==> keys_unique(m@) && consistent(m@),
{
    let ghost toks = words(args@);
    let mut keys = ArgMap::from_actions(declared_list());
    proof {
        lemma_table_of(declared_actions());
        assert(consistent(declared_actions())) by {
            let d = declared_actions();
            assert forall|i: int| 0 <= i < d.len() implies entry_consistent(#[trigger] d[i]) by {}
        }
    }
    let n: usize = args.len();
    let master_arg: String = args[1].clone();
    let mut mode: bool = true;
    let mut key_tmp: String = String::new();
    let mut order_counter: usize = 0;
    let mut i: usize = 1;
    while i < n
        invariant
            toks == words(args@),
            n == args@.len(),
            1 <= i <= n,
            order_counter < i,
            master_arg@ == args@[1]@,
            parse_run(start_state(declared_table()), toks.skip(1)) == parse_run(
                ParseState { table: keys@, expect_key: mode, pending: key_tmp@, count: order_counter as nat },
                toks.skip(i as int),
            ),
        decreases n - i,
    {
        let ghost cur = ParseState { table: keys@, expect_key: mode, pending: key_tmp@, count: order_counter as nat };
        let v: &String = &args[i];
        proof {
            assert(toks[i as int] == v@);
            assert(toks.skip(i as int)[0] == toks[i as int]);
            assert(toks.skip(i as int).drop_first() =~= toks.skip(i + 1));
        }
        if mode {
            match keys.position(v.as_str()) {
                Some(idx) => {
                    proof {
                        lemma_index_of(keys@, v@);
                    }
                    order_counter = order_counter + 1;
                    keys.activate_at(idx, order_counter);
                    if !keys.only_key_at(idx) {
                        mode = false;
                    }
                    if !key_tmp.as_str().is_empty() {
                        proof {
                            lemma_index_of(keys@, key_tmp@);
                        }
                        match keys.position(key_tmp.as_str()) {
                            Some(j) => {
                                keys.set_next_at(j, v.clone());
                            },
                            None => {},
                        }
                    }
                    key_tmp = v.clone();
                    assert(parse_step(cur, toks[i as int]) == Some(
                        ParseState { table: keys@, expect_key: mode, pending: key_tmp@, count: order_counter as nat },
                    ));
                },
                None => {
                    return Err(String::from_str("Please provide valid arguents"));
                },
            }
        } else {
            proof {
                lemma_index_of(keys@, key_tmp@);
            }
            match keys.position(key_tmp.as_str()) {
                Some(j) => {
                    if keys.is_used_at(j) {
                        keys.set_value_at(j, v.clone());
                    }
                },
                None => {},
            }
            key_tmp = String::new();
            mode = true;
            assert(parse_step(cur, toks[i as int]) == Some(
                ParseState { table: keys@, expect_key: mode, pending: key_tmp@, count: order_counter as nat },
            ));
        }
        i = i + 1;
    }
    let ghost fin = ParseState { table: keys@, expect_key: mode, pending: key_tmp@, count: order_counter as nat };
    assert(toks.skip(n as int) =~= Seq::<Seq<char>>::empty());
    assert(parse_run(start_state(declared_table()), toks.skip(1)) == Some(fin));
    proof {
        lemma_run_shape(start_state(declared_table()), toks.skip(1));
        lemma_shape_keeps(declared_table(), fin.table);
        lemma_active_only_unique(fin.table);
        lemma_active_only_consistent(fin.table);
    }
    let out = keys.retain_used();
    Ok((out, master_arg))
}

impl ArgMap {
    /// Drops the entries that were not given on the command line.
    fn retain_used(self) -> (res: ArgMap)
        ensures
            res@ == active_only(self@),
    {
        let ghost all = self@;
        proof {
            use_type_invariant(&self);
        }
        let mut rest = self.entries;
        let mut out: Vec<ArgAction> = Vec::new();
        let mut k: usize = 0;
        let n: usize = rest.len();
        while rest.len() > 0
            invariant
                all.len() == n,
                k + rest@.len() == n,
                rest@.map_values(|a: ArgAction| a@) =~= all.skip(k as int),
                out@.map_values(|a: ArgAction| a@) == active_only(all.take(k as int)),
            decreases rest@.len(),
        {
            let ghost pre = rest@;
            let a = rest.remove(0);
            proof {
                assert(pre.map_values(|a: ArgAction| a@)[0] == pre[0]@);
                assert(all.skip(k as int)[0] == all[k as int]);
                assert(rest@ =~= pre.drop_first());
                assert forall|j: int| 0 <= j < rest@.len() implies #[trigger] rest@[j]@ == all[k + 1 + j] by {
                    assert(pre.map_values(|a: ArgAction| a@)[j + 1] == pre[j + 1]@);
                    assert(all.skip(k as int)[j + 1] == all[k + 1 + j]);
                }
                assert(all.take(k + 1).drop_last() =~= all.take(k as int));
                assert(all.take(k + 1).last() == all[k as int]);
            }
            if a.used {
                let ghost av = a@;
                out.push(a);
                assert(out@.map_values(|a: ArgAction| a@) =~= active_only(all.take(k as int)).push(av));
            }
            k = k + 1;
            assert(rest@.map_values(|a: ArgAction| a@) =~= all.skip(k as int));
        }
        assert(all.take(n as int) =~= all);
        proof {
            lemma_active_only_unique(all);
            lemma_active_only_consistent(all);
        }
        ArgMap { entries: out }
    }
}


/// What calling an argument gives: a reply, or a command that needs the
/// password store.
pub enum Dispatch {
    Reply(Result<String, String>),
    Init,
    Get,
    Create,
    Remove,
}

/// The model of a [`Dispatch`].
pub enum DispatchView {
    Reply(Result<Seq<char>, Seq<char>>),
    Init,
    Get,
    Create,
    Remove,
}

impl View for Dispatch {
    type V = DispatchView;

    open spec fn view(&self) -> DispatchView {
        match self {
            Dispatch::Reply(Ok(s)) => DispatchView::Reply(Ok(s@)),
            Dispatch::Reply(Err(e)) => DispatchView::Reply(Err(e@)),
            Dispatch::Init => DispatchView::Init,
            Dispatch::Get => DispatchView::Get,
            Dispatch::Create => DispatchView::Create,
            Dispatch::Remove => DispatchView::Remove,
        }
    }
}

/// The value of the entry with the key `k`.
pub open spec fn value_of(t: Seq<ActionView>, k: Seq<char>) -> Seq<char> {
    t[index_of(t, k)].value
}

/// Whether the entry that the callback of `a` reads is in the table.
pub open spec fn callback_ready(a: ActionView, t: Seq<ActionView>) -> bool {
    a.callback matches Some(c) ==> (callback_key(c) matches Some(k) ==> index_of(t, k) >= 0)
}

/// What calling an argument with callback `cb` against the table `t` gives.
pub open spec fn call_spec(cb: Option<Callback>, t: Seq<ActionView>) -> DispatchView {
    match cb {
        None => DispatchView::Reply(Err("There is not any callback like this"@)),
        Some(Callback::Version) => DispatchView::Reply(Ok("Version "@ + VERSION@)),
        Some(Callback::Name) => DispatchView::Reply(Ok(value_of(t, "name"@))),
        Some(Callback::Description) => DispatchView::Reply(Ok(value_of(t, "description"@))),
        Some(Callback::Key) => DispatchView::Reply(Ok(value_of(t, "key"@))),
        Some(Callback::Password) => DispatchView::Reply(Ok(value_of(t, "password"@))),
        Some(Callback::Init) => DispatchView::Init,
        Some(Callback::Get) => DispatchView::Get,
        Some(Callback::Create) => DispatchView::Create,
        Some(Callback::Remove) => DispatchView::Remove,
    }
}

fn version_callback(config: &ArgMap) -> (res: Result<String, String>)
    ensures
        res matches Ok(s) && s@ == "Version "@ + VERSION@,
{
    let mut s = String::from_str("Version ");
    s.append(VERSION);
    Ok(s)
}

/// The value of the entry with the key `key`.
pub(crate) fn entry_value(config: &ArgMap, key: &str) -> (res: String)
    requires
        index_of(config@, key@) >= 0,
    ensures
        res@ == value_of(config@, key@),
{
    match config.get(key) {
        Some(a) => a.get_value(),
        None => String::new(),
    }
}

fn name_callback(config: &ArgMap) -> (res: Result<String, String>)
    requires
        index_of(config@, "name"@) >= 0,
    ensures
        res matches Ok(s) && s@ == value_of(config@, "name"@),
{
    Ok(entry_value(config, "name"))
}

fn description_callback(config: &ArgMap) -> (res: Result<String, String>)
    requires
        index_of(config@, "description"@) >= 0,
    ensures
        res matches Ok(s) && s@ == value_of(config@, "description"@),
{
    Ok(entry_value(config, "description"))
}

fn key_callback(config: &ArgMap) -> (res: Result<String, String>)
    requires
        index_of(config@, "key"@) >= 0,
    ensures
        res matches Ok(s) && s@ == value_of(config@, "key"@),
{
    Ok(entry_value(config, "key"))
}

/// The reply of the `password` argument: its value.
pub fn password_callback(config: &ArgMap) -> (res: Result<String, String>)
    requires
        index_of(config@, "password"@) >= 0,
    ensures
        res matches Ok(s) && s@ == value_of(config@, "password"@),
{
    Ok(entry_value(config, "password"))
}

impl ArgAction {
    /// Runs the argument's callback against the table `ref_action`.
    pub fn call(&self, ref_action: &ArgMap) -> (res: Dispatch)
        requires
            callback_ready(self@, ref_action@),
        ensures
            res@ == call_spec(self@.callback, ref_action@),
    {
        match self.callback {
            None => Dispatch::Reply(Err(String::from_str("There is not any callback like this"))),
            Some(Callback::Version) => Dispatch::Reply(version_callback(ref_action)),
            Some(Callback::Name) => Dispatch::Reply(name_callback(ref_action)),
            Some(Callback::Description) => Dispatch::Reply(description_callback(ref_action)),
            Some(Callback::Key) => Dispatch::Reply(key_callback(ref_action)),
            Some(Callback::Password) => Dispatch::Reply(password_callback(ref_action)),
            Some(Callback::Init) => Dispatch::Init,
            Some(Callback::Get) => Dispatch::Get,
            Some(Callback::Create) => Dispatch::Create,
            Some(Callback::Remove) => Dispatch::Remove,
        }
    }

    /// Runs the callback of the argument that followed this one.
    pub fn call_next(&self, config: &ArgMap) -> (res: Dispatch)
        requires
            index_of(config@, self@.next) >= 0,
            callback_ready(config@[index_of(config@, self@.next)], config@),
        ensures
            res@ == call_spec(config@[index_of(config@, self@.next)].callback, config@),
    {
        match config.get(self.get_next()) {
            Some(a) => a.call(config),
            None => Dispatch::Reply(Err(String::new())),
        }
    }

    /// Accepts the argument's value only if it is one of `deps`.
    pub fn validate_value(&self, deps: Vec<&'static str>) -> (res: Result<(), String>)
        ensures
            res is Ok <==> deps@.map_values(|d: &'static str| d@).contains(self@.value),
            res matches Err(e) ==> e@ == "Can't validate the command mode!"@,
    {
        let mut i: usize = 0;
        let ghost ds = deps@.map_values(|d: &'static str| d@);
        while i < deps.len()
            invariant
                i <= deps@.len(),
                ds == deps@.map_values(|d: &'static str| d@),
                forall|j: int| 0 <= j < i ==> deps@[j]@ != self@.value,
            decreases deps@.len() - i,
        {
            if crate::text::str_equal(deps[i], self.value.as_str()) {
                assert(ds[i as int] == self@.value);
                return Ok(());
            }
            i = i + 1;
        }
        proof {
            if ds.contains(self@.value) {
                let j = choose|j: int| 0 <= j < ds.len() && ds[j] == self@.value;
                assert(deps@[j]@ == ds[j]);
            }
        }
        Err(String::from_str("Can't validate the command mode!"))
    }
}

/// The key of the first entry numbered `order`, if any.
pub open spec fn first_with_order(t: Seq<ActionView>, order: usize) -> Option<Seq<char>>
    decreases t.len(),
{
    if t.len() == 0 {
        None
    } else if t[0].order == order {
        Some(t[0].key)
    } else {
        first_with_order(t.drop_first(), order)
    }
}

/// The name of the argument numbered `order`, if one is.
pub fn get_arg_by_order(p_args: &ArgMap, order: usize) -> (res: Option<String>)
    ensures
        match first_with_order(p_args@, order) {
            Some(k) => res matches Some(s) && s@ == k,
            None => res is None,
        },
{
    let ghost t = p_args@;
    let n: usize = p_args.entries.len();
    let mut i: usize = 0;
    assert(t.skip(0) =~= t);
    while i < n
        invariant
            t == p_args@,
            n == t.len(),
            i <= n,
            first_with_order(t, order) == first_with_order(t.skip(i as int), order),
        decreases n - i,
    {
        let a: &ArgAction = &p_args.entries[i];
        assert(t.skip(i as int)[0] == a@);
        assert(t.skip(i as int).drop_first() =~= t.skip(i + 1));
        if a.get_order() == order {
            return Some(String::from_str(a.get_key()));
        }
        i = i + 1;
    }
    assert(t.skip(n as int) =~= Seq::<ActionView>::empty());
    None
}

/// One line of the help text per entry: a line break, the name, two tabs
/// and the description.
pub open spec fn doc_text(t: Seq<ActionView>) -> Seq<char>
    decreases t.len(),
{
    if t.len() == 0 {
        Seq::empty()
    } else {
        doc_text(t.drop_last()) + "\n"@ + t.last().key + "\t\t"@ + t.last().description
    }
}

/// The help text of the table.
#[allow(non_snake_case)]
pub fn createDoc(p_args: &ArgMap) -> (res: String)
    ensures
        res@ == doc_text(p_args@),
{
    let ghost t = p_args@;
    let n: usize = p_args.entries.len();
    let mut output = String::new();
    let mut i: usize = 0;
    while i < n
        invariant
            t == p_args@,
            n == t.len(),
            i <= n,
            output@ == doc_text(t.take(i as int)),
        decreases n - i,
    {
        let a: &ArgAction = &p_args.entries[i];
        output.append("\n");
        output.append(a.get_key());
        output.append("\t\t");
        output.append(a.get_desc());
        assert(t.take(i + 1).drop_last() =~= t.take(i as int));
        assert(t.take(i + 1).last() == a@);
        i = i + 1;
    }
    assert(t.take(n as int) =~= t);
    output
}

/// The position of the first entry that runs something (priority at least
/// one), or -1.
pub open spec fn first_runnable(t: Seq<ActionView>) -> int
    decreases t.len(),
{
    if t.len() == 0 {
        -1
    } else if t[0].priority >= 1 {
        0
    } else {
        let r = first_runnable(t.drop_first());
        if r < 0 { -1 } else { r + 1 }
    }
}

/// What running a command line's table gives: the call of its first entry
/// that runs something, or an error if none does.
pub open spec fn process_spec(t: Seq<ActionView>) -> DispatchView {
    let i = first_runnable(t);
    if i >= 0 {
        call_spec(t[i].callback, t)
    } else {
        DispatchView::Reply(Err("Please provide a valid argument"@))
    }
}

pub proof fn lemma_first_runnable(t: Seq<ActionView>)
    ensures
        -1 <= first_runnable(t) < t.len(),
        first_runnable(t) >= 0 ==> t[first_runnable(t)].priority >= 1,
        forall|j: int| 0 <= j < t.len() && (first_runnable(t) < 0 || j < first_runnable(t)) ==> t[j].priority < 1,
    decreases t.len(),
{
    if t.len() > 0 {
        let q = t.drop_first();
        lemma_first_runnable(q);
        assert forall|j: int| 0 <= j < q.len() implies q[j] == t[j + 1] by {}
        if t[0].priority < 1 {
            assert forall|j: int| 0 <= j < t.len() && (first_runnable(t) < 0 || j < first_runnable(t)) implies t[j].priority < 1 by {
                if j > 0 {
                    assert(q[j - 1] == t[j]);
                }
            }
        }
    }
}

/// Runs the first argument of the table that runs something.
pub fn process_args(config: &ArgMap, master_key: &str) -> (res: Dispatch)
    ensures
        res@ == process_spec(config@),
{
    let ghost t = config@;
    proof {
        use_type_invariant(config);
        lemma_first_runnable(t);
    }
    let n: usize = config.entries.len();
    let mut i: usize = 0;
    while i < n
        invariant
            t == config@,
            n == t.len(),
            i <= n,
            -1 <= first_runnable(t) < t.len(),
            first_runnable(t) >= 0 ==> t[first_runnable(t)].priority >= 1,
            forall|j: int| 0 <= j < t.len() && (first_runnable(t) < 0 || j < first_runnable(t)) ==> t[j].priority < 1,
            forall|j: int| 0 <= j < i ==> t[j].priority < 1,
            consistent(t),
        decreases n - i,
    {
        let a: &ArgAction = &config.entries[i];
        assert(t[i as int] == a@);
        if a.get_priority() >= 1 {
            proof {
                assert(first_runnable(t) == i);
                assert(entry_consistent(t[i as int]));
                if let Some(c) = a@.callback {
                    if let Some(k) = callback_key(c) {
                        assert(t[i as int].key == k);
                        lemma_index_of(t, k);
                        assert(has_key(t, k));
                    }
                }
            }
            return a.call(config);
        }
        i = i + 1;
    }
    Dispatch::Reply(Err(String::from_str("Please provide a valid argument")))
}


/// The numbering of used entries: each is numbered between 1 and `count`,
/// no two alike.
pub open spec fn orders_ok(t: Seq<ActionView>, count: nat) -> bool {
    &&& forall|i: int| 0 <= i < t.len() && (#[trigger] t[i]).used ==> 1 <= t[i].order <= count
    &&& forall|i: int, j: int|
        0 <= i < t.len() && 0 <= j < t.len() && i != j && (#[trigger] t[i]).used && (#[trigger] t[j]).used
            ==> t[i].order != t[j].order
}

proof fn lemma_table_of_unused(list: Seq<ActionView>)
    requires
        forall|i: int| 0 <= i < list.len() ==> !(#[trigger] list[i]).used,
    ensures
        forall|i: int| 0 <= i < table_of(list).len() ==> !(#[trigger] table_of(list)[i]).used,
    decreases list.len(),
{
    if list.len() > 0 {
        let p = list.drop_last();
        assert forall|i: int| 0 <= i < p.len() implies !(#[trigger] p[i]).used by {
            assert(p[i] == list[i]);
        }
        lemma_table_of_unused(p);
        let t = table_of(p);
        let a = list.last();
        assert(!a.used);
        lemma_index_of(t, a.key);
        let r = insert_action(t, a);
        assert forall|i: int| 0 <= i < r.len() implies !(#[trigger] r[i]).used by {
            if i < t.len() && i != index_of(t, a.key) {
                assert(r[i] == t[i]);
            }
        }
    }
}

proof fn lemma_step_orders(s: ParseState, tok: Seq<char>)
    requires
        orders_ok(s.table, s.count),
        s.count < usize::MAX,
    ensures
        parse_step(s, tok) matches Some(n) ==> {
            &&& orders_ok(n.table, n.count)
            &&& s.count <= n.count <= s.count + 1
            &&& n.table.len() == s.table.len()
            &&& forall|i: int| 0 <= i < s.table.len() && (#[trigger] s.table[i]).used ==> n.table[i].used
        },
{
    lemma_step_shape(s, tok);
    if s.expect_key {
        let i = index_of(s.table, tok);
        lemma_index_of(s.table, tok);
        if i >= 0 {
            let count = s.count + 1;
            let t1 = s.table.update(i, ActionView { order: count as usize, used: true, ..s.table[i] });
            lemma_index_of(t1, s.pending);
            assert(orders_ok(t1, count)) by {
                assert forall|a: int, b: int|
                    0 <= a < t1.len() && 0 <= b < t1.len() && a != b && (#[trigger] t1[a]).used && (#[trigger] t1[b]).used
                        implies t1[a].order != t1[b].order by {
                    if a != i && b != i {
                        assert(s.table[a].used && s.table[b].used);
                    } else if a == i {
                        assert(s.table[b].used);
                    } else {
                        assert(s.table[a].used);
                    }
                }
                assert forall|a: int| 0 <= a < t1.len() && (#[trigger] t1[a]).used implies 1 <= t1[a].order <= count by {
                    if a != i {
                        assert(s.table[a].used);
                    }
                }
            }
        }
    } else {
        lemma_index_of(s.table, s.pending);
    }
}

proof fn lemma_run_orders(s: ParseState, toks: Seq<Seq<char>>)
    requires
        orders_ok(s.table, s.count),
        s.count + toks.len() <= usize::MAX,
    ensures
        parse_run(s, toks) matches Some(n) ==> {
            &&& orders_ok(n.table, n.count)
            &&& n.table.len() == s.table.len()
            &&& forall|i: int| 0 <= i < s.table.len() && (#[trigger] s.table[i]).used ==> n.table[i].used
        },
    decreases toks.len(),
{
    if toks.len() > 0 {
        lemma_step_orders(s, toks[0]);
        if let Some(m) = parse_step(s, toks[0]) {
            lemma_run_orders(m, toks.drop_first());
        }
    }
}

proof fn lemma_first_with_order(t: Seq<ActionView>, i: int)
    requires
        0 <= i < t.len(),
        forall|j: int| 0 <= j < t.len() && j != i ==> (#[trigger] t[j]).order != t[i].order,
    ensures
        first_with_order(t, t[i].order) == Some(t[i].key),
    decreases t.len(),
{
    if i > 0 {
        let q = t.drop_first();
        assert(q[i - 1] == t[i]);
        assert forall|j: int| 0 <= j < q.len() && j != i - 1 implies (#[trigger] q[j]).order != q[i - 1].order by {
            assert(q[j] == t[j + 1]);
        }
        assert(t[0].order != t[i].order);
        lemma_first_with_order(q, i - 1);
    }
}

/// The table of a parsed command line, once the parse succeeded.
pub open spec fn parsed(args: Seq<Seq<char>>) -> Seq<ActionView> {
    parse_arguments(args).unwrap()
}

/// The final state of a parse that succeeded.
pub open spec fn final_state(args: Seq<Seq<char>>) -> ParseState {
    parse_run(start_state(declared_table()), args.skip(1)).unwrap()
}

proof fn lemma_final_state(args: Seq<Seq<char>>)
    requires
        1 <= args.len() <= usize::MAX,
        parse_arguments(args) is Some,
    ensures
        orders_ok(final_state(args).table, final_state(args).count),
        keys_unique(final_state(args).table),
        parsed(args) == active_only(final_state(args).table),
{
    let toks = args.skip(1);
    let s0 = start_state(declared_table());
    let d = declared_actions();
    assert forall|i: int| 0 <= i < d.len() implies !(#[trigger] d[i]).used by {}
    lemma_table_of_unused(d);
    lemma_table_of(d);
    lemma_run_orders(s0, toks);
    lemma_run_shape(s0, toks);
    lemma_shape_keeps(declared_table(), final_state(args).table);
}

proof fn lemma_parsed_orders(args: Seq<Seq<char>>)
    requires
        1 <= args.len() <= usize::MAX,
        parse_arguments(args) is Some,
    ensures
        forall|i: int| 0 <= i < parsed(args).len() ==> (#[trigger] parsed(args)[i]).used,
        forall|i: int| 0 <= i < parsed(args).len() ==> 1 <= (#[trigger] parsed(args)[i]).order,
        forall|i: int, j: int|
            0 <= i < parsed(args).len() && 0 <= j < parsed(args).len() && i != j
                ==> (#[trigger] parsed(args)[i]).order != (#[trigger] parsed(args)[j]).order,
{
    lemma_final_state(args);
    let fin = final_state(args);
    let r = parsed(args);
    lemma_active_only_from(fin.table);
    lemma_active_only_unique(fin.table);
    assert forall|i: int, j: int| 0 <= i < r.len() && 0 <= j < r.len() && i != j
        implies (#[trigger] r[i]).order != (#[trigger] r[j]).order by {
        let a = choose|a: int| 0 <= a < fin.table.len() && #[trigger] fin.table[a] == r[i];
        let b = choose|b: int| 0 <= b < fin.table.len() && #[trigger] fin.table[b] == r[j];
        assert(r[i].key != r[j].key);
        assert(fin.table[a].used && fin.table[b].used);
    }
    assert forall|i: int| 0 <= i < r.len() implies 1 <= (#[trigger] r[i]).order by {
        let a = choose|a: int| 0 <= a < fin.table.len() && #[trigger] fin.table[a] == r[i];
        assert(fin.table[a].used);
    }
}

proof fn lemma_parsed_master(args: Seq<Seq<char>>)
    requires
        2 <= args.len() <= usize::MAX,
        parse_arguments(args) is Some,
    ensures
        has_key(parsed(args), args[1]),
{
    lemma_final_state(args);
    let toks = args.skip(1);
    let s0 = start_state(declared_table());
    let fin = final_state(args);
    let r = parsed(args);
    assert(toks[0] == args[1]);
    let k = index_of(s0.table, args[1]);
    lemma_index_of(s0.table, args[1]);
    let s1 = parse_step(s0, toks[0]).unwrap();
    assert(k >= 0);
    assert(s1.table[k].used);
    let d = declared_actions();
    assert forall|i: int| 0 <= i < d.len() implies !(#[trigger] d[i]).used by {}
    lemma_table_of_unused(d);
    assert(orders_ok(s0.table, s0.count));
    lemma_step_orders(s0, toks[0]);
    lemma_step_shape(s0, toks[0]);
    lemma_run_orders(s1, toks.drop_first());
    lemma_run_shape(s1, toks.drop_first());
    assert(fin == parse_run(s1, toks.drop_first()).unwrap());
    assert(fin.table[k].used);
    assert(fin.table[k].key == args[1]);
    lemma_active_only_complete(fin.table);
    let w = choose|w: int| 0 <= w < r.len() && r[w] == fin.table[k];
    assert(r[w].key == args[1]);
}

/// Of a command line that parses: every argument in the table was given,
/// each is numbered from 1 up, no two alike, and looking an argument up by
/// its number finds it again; the first word after the program path is in
/// the table.
pub proof fn law_parsed_arguments(args: Seq<Seq<char>>)
    requires
        2 <= args.len() <= usize::MAX,
        parse_arguments(args) is Some,
    ensures
        forall|i: int| 0 <= i < parsed(args).len() ==> (#[trigger] parsed(args)[i]).used,
        forall|i: int| 0 <= i < parsed(args).len() ==> 1 <= (#[trigger] parsed(args)[i]).order,
        forall|i: int, j: int|
            0 <= i < parsed(args).len() && 0 <= j < parsed(args).len() && i != j
                ==> (#[trigger] parsed(args)[i]).order != (#[trigger] parsed(args)[j]).order,
        forall|i: int|
            0 <= i < parsed(args).len() ==> first_with_order(parsed(args), (#[trigger] parsed(args)[i]).order)
                == Some(parsed(args)[i].key),
        has_key(parsed(args), args[1]),
{
    lemma_parsed_orders(args);
    lemma_parsed_master(args);
    let r = parsed(args);
    assert forall|i: int| 0 <= i < r.len() implies first_with_order(r, (#[trigger] r[i]).order) == Some(r[i].key) by {
        assert forall|j: int| 0 <= j < r.len() && j != i implies (#[trigger] r[j]).order != r[i].order by {}
        lemma_first_with_order(r, i);
    }
}


/// The priority that the program declares for the argument `k`: 1 for the
/// commands that run something, 0 for the others.
pub open spec fn declared_priority(k: Seq<char>) -> usize {
    if k == "init"@ || k == "get"@ || k == "version"@ || k == "remove"@ || k == "create"@ {
        1
    } else {
        0
    }
}

/// The callback that the program declares for the argument `k`.
pub open spec fn declared_callback(k: Seq<char>) -> Option<Callback> {
    if k == "init"@ {
        Some(Callback::Init)
    } else if k == "get"@ {
        Some(Callback::Get)
    } else if k == "version"@ {
        Some(Callback::Version)
    } else if k == "password"@ {
        Some(Callback::Password)
    } else if k == "remove"@ {
        Some(Callback::Remove)
    } else if k == "name"@ {
        Some(Callback::Name)
    } else if k == "create"@ {
        Some(Callback::Create)
    } else if k == "description"@ {
        Some(Callback::Description)
    } else if k == "key"@ {
        Some(Callback::Key)
    } else {
        None
    }
}

/// Every entry carries the priority and callback declared for its key.
pub open spec fn as_declared(t: Seq<ActionView>) -> bool {
    forall|i: int|
        0 <= i < t.len() ==> (#[trigger] t[i]).priority == declared_priority(t[i].key) && t[i].callback
            == declared_callback(t[i].key)
}

/// The known argument names begin with different letters.
proof fn lemma_key_words()
    ensures
        "init"@.len() > 0 && "init"@[0] == 'i',
        "get"@.len() > 0 && "get"@[0] == 'g',
        "version"@.len() > 0 && "version"@[0] == 'v',
        "password"@.len() > 0 && "password"@[0] == 'p',
        "remove"@.len() > 0 && "remove"@[0] == 'r',
        "name"@.len() > 0 && "name"@[0] == 'n',
        "create"@.len() > 0 && "create"@[0] == 'c',
        "description"@.len() > 0 && "description"@[0] == 'd',
        "key"@.len() > 0 && "key"@[0] == 'k',
        "all"@.len() > 0 && "all"@[0] == 'a',
{
    reveal_strlit("init");
    reveal_strlit("get");
    reveal_strlit("version");
    reveal_strlit("password");
    reveal_strlit("remove");
    reveal_strlit("name");
    reveal_strlit("create");
    reveal_strlit("description");
    reveal_strlit("key");
    reveal_strlit("all");
}

proof fn lemma_declared_actions()
    ensures
        as_declared(declared_actions()),
{
    lemma_key_words();
    let d = declared_actions();
    assert forall|i: int| 0 <= i < d.len() implies (#[trigger] d[i]).priority == declared_priority(d[i].key)
        && d[i].callback == declared_callback(d[i].key) by {}
}

proof fn lemma_table_of_declared(list: Seq<ActionView>)
    requires
        as_declared(list),
    ensures
        as_declared(table_of(list)),
    decreases list.len(),
{
    if list.len() > 0 {
        let p = list.drop_last();
        assert forall|i: int| 0 <= i < p.len() implies (#[trigger] p[i]).priority == declared_priority(p[i].key)
            && p[i].callback == declared_callback(p[i].key) by {
            assert(p[i] == list[i]);
        }
        lemma_table_of_declared(p);
        let t = table_of(p);
        let a = list.last();
        assert(a == list[list.len() - 1]);
        lemma_index_of(t, a.key);
        let r = insert_action(t, a);
        assert forall|i: int| 0 <= i < r.len() implies (#[trigger] r[i]).priority == declared_priority(r[i].key)
            && r[i].callback == declared_callback(r[i].key) by {
            if i < t.len() && i != index_of(t, a.key) {
                assert(r[i] == t[i]);
            }
        }
    }
}

proof fn lemma_active_only_declared(t: Seq<ActionView>)
    requires
        as_declared(t),
    ensures
        as_declared(active_only(t)),
{
    lemma_active_only_from(t);
    let r = active_only(t);
    assert forall|i: int| 0 <= i < r.len() implies (#[trigger] r[i]).priority == declared_priority(r[i].key)
        && r[i].callback == declared_callback(r[i].key) by {
        let j = choose|j: int| 0 <= j < t.len() && #[trigger] t[j] == r[i];
        assert(t[j] == r[i]);
    }
}

proof fn lemma_parsed_declared(args: Seq<Seq<char>>)
    requires
        1 <= args.len() <= usize::MAX,
        parse_arguments(args) is Some,
    ensures
        as_declared(parsed(args)),
        keys_unique(parsed(args)),
{
    lemma_final_state(args);
    let fin = final_state(args);
    let s0 = start_state(declared_table());
    lemma_declared_actions();
    lemma_table_of_declared(declared_actions());
    lemma_run_shape(s0, args.skip(1));
    let d = declared_table();
    assert forall|i: int| 0 <= i < fin.table.len() implies (#[trigger] fin.table[i]).priority == declared_priority(
        fin.table[i].key,
    ) && fin.table[i].callback == declared_callback(fin.table[i].key) by {
        assert(d[i].key == fin.table[i].key);
    }
    lemma_active_only_declared(fin.table);
    lemma_active_only_unique(fin.table);
}

/// Of a command line that parses: each argument in the table has the
/// priority declared for it, 1 for `init`, `get`, `version`, `remove` and
/// `create` and 0 for the others.
pub proof fn law_parsed_priorities(args: Seq<Seq<char>>)
    requires
        2 <= args.len() <= usize::MAX,
        parse_arguments(args) is Some,
    ensures
        forall|i: int|
            0 <= i < parsed(args).len() ==> (#[trigger] parsed(args)[i]).priority == declared_priority(
                parsed(args)[i].key,
            ),
{
    lemma_parsed_declared(args);
}

/// Of a command line that parses: calling the entry of `name`,
/// `description`, `key` or `password` against the table replies with that
/// entry's own value.
pub proof fn law_parsed_value_replies(args: Seq<Seq<char>>)
    requires
        2 <= args.len() <= usize::MAX,
        parse_arguments(args) is Some,
    ensures
        forall|i: int|
            0 <= i < parsed(args).len() && (parsed(args)[i].key == "name"@ || parsed(args)[i].key == "description"@
                || parsed(args)[i].key == "key"@ || parsed(args)[i].key == "password"@) ==> {
                &&& callback_ready(parsed(args)[i], parsed(args))
                &&& call_spec((#[trigger] parsed(args)[i]).callback, parsed(args)) == DispatchView::Reply(
                    Ok::<Seq<char>, Seq<char>>(parsed(args)[i].value),
                )
            },
{
    lemma_parsed_declared(args);
    let r = parsed(args);
    lemma_key_words();
    assert forall|i: int|
        0 <= i < r.len() && (r[i].key == "name"@ || r[i].key == "description"@ || r[i].key == "key"@ || r[i].key
            == "password"@) implies {
        &&& callback_ready(r[i], r)
        &&& call_spec((#[trigger] r[i]).callback, r) == DispatchView::Reply(Ok::<Seq<char>, Seq<char>>(r[i].value))
    } by {
        let k = r[i].key;
        lemma_index_of(r, k);
        assert(has_key(r, k));
        assert(index_of(r, k) == i);
        assert(r[i].callback == declared_callback(k));
        assert(callback_ready(r[i], r));
        assert(value_of(r, k) == r[i].value);
    }
}

/// The words of `toks` that stand in an argument's place, in order: the
/// first one, each word after an argument that takes no value, and each
/// word after a value. Whether an argument takes a value is read from `t`.
pub open spec fn key_words(t: Seq<ActionView>, expect_key: bool, toks: Seq<Seq<char>>) -> Seq<Seq<char>>
    decreases toks.len(),
{
    if toks.len() == 0 {
        Seq::empty()
    } else if expect_key {
        seq![toks[0]] + key_words(t, t[index_of(t, toks[0])].only_key, toks.drop_first())
    } else {
        key_words(t, true, toks.drop_first())
    }
}

/// The words of a command line (program path first) that stand in an
/// argument's place.
pub open spec fn argument_words(args: Seq<Seq<char>>) -> Seq<Seq<char>> {
    key_words(declared_table(), true, args.skip(1))
}

/// No word occurs twice.
pub open spec fn distinct_words(w: Seq<Seq<char>>) -> bool {
    forall|p: int, q: int| 0 <= p < w.len() && 0 <= q < w.len() && p != q ==> w[p] != w[q]
}

/// The used entries of `t` are those of the words `w`, each numbered by its
/// position in `w` (from 1).
spec fn numbered_by(t: Seq<ActionView>, w: Seq<Seq<char>>) -> bool {
    &&& forall|j: int|
        0 <= j < t.len() && (#[trigger] t[j]).used ==> 1 <= t[j].order <= w.len() && w[t[j].order - 1] == t[j].key
    &&& forall|p: int|
        0 <= p < w.len() ==> index_of(t, #[trigger] w[p]) >= 0 && t[index_of(t, w[p])].used && t[index_of(t, w[p])].order
            == p + 1
}

proof fn lemma_key_words_len(t: Seq<ActionView>, expect_key: bool, toks: Seq<Seq<char>>)
    ensures
        key_words(t, expect_key, toks).len() <= toks.len(),
    decreases toks.len(),
{
    if toks.len() > 0 {
        lemma_key_words_len(t, t[index_of(t, toks[0])].only_key, toks.drop_first());
        lemma_key_words_len(t, true, toks.drop_first());
    }
}

proof fn lemma_step_numbered(s: ParseState, tok: Seq<char>, w: Seq<Seq<char>>)
    requires
        numbered_by(s.table, w),
        s.count == w.len(),
        s.count < usize::MAX,
        same_shape(declared_table(), s.table),
        keys_unique(s.table),
        s.expect_key ==> !w.contains(tok),
    ensures
        parse_step(s, tok) matches Some(n) ==> {
            let w2 = if s.expect_key { w.push(tok) } else { w };
            &&& numbered_by(n.table, w2)
            &&& n.count == w2.len()
            &&& same_shape(declared_table(), n.table)
            &&& keys_unique(n.table)
            &&& s.expect_key ==> n.expect_key == declared_table()[index_of(declared_table(), tok)].only_key
            &&& !s.expect_key ==> n.expect_key
        },
{
    let d = declared_table();
    lemma_step_shape(s, tok);
    lemma_shape_keeps(d, s.table);
    if let Some(n) = parse_step(s, tok) {
        lemma_shape_keeps(s.table, n.table);
        assert forall|i: int| 0 <= i < d.len() implies (#[trigger] d[i]).key == n.table[i].key && d[i].only_key
            == n.table[i].only_key && d[i].callback == n.table[i].callback && d[i].description
            == n.table[i].description && d[i].priority == n.table[i].priority by {
            assert(d[i].key == s.table[i].key);
            assert(s.table[i].key == n.table[i].key);
        }
        lemma_index_of(s.table, tok);
        lemma_index_of(s.table, s.pending);
        if s.expect_key {
            let i = index_of(s.table, tok);
            let w2 = w.push(tok);
            let count = s.count + 1;
            let t1 = s.table.update(i, ActionView { order: count as usize, used: true, ..s.table[i] });
            lemma_index_of(t1, s.pending);
            assert(numbered_by(t1, w2)) by {
                assert forall|j: int| 0 <= j < t1.len() && (#[trigger] t1[j]).used implies 1 <= t1[j].order <= w2.len()
                    && w2[t1[j].order - 1] == t1[j].key by {
                    if j != i {
                        assert(s.table[j].used);
                    }
                }
                assert forall|p: int| 0 <= p < w2.len() implies index_of(t1, #[trigger] w2[p]) >= 0 && t1[index_of(
                    t1,
                    w2[p],
                )].used && t1[index_of(t1, w2[p])].order == p + 1 by {
                    lemma_index_of(t1, w2[p]);
                    lemma_shape_keeps(s.table, t1);
                    if p < w.len() {
                        assert(w2[p] == w[p]);
                        assert(w[p] != tok) by {
                            if w[p] == tok {
                                assert(w.contains(tok));
                            }
                        }
                        assert(index_of(s.table, w[p]) != i);
                    }
                }
            }
            lemma_shape_keeps(s.table, t1);
            assert(n.table == (if s.pending.len() != 0 && index_of(t1, s.pending) >= 0 {
                t1.update(index_of(t1, s.pending), ActionView { next: tok, ..t1[index_of(t1, s.pending)] })
            } else {
                t1
            }));
            assert(numbered_by(n.table, w2)) by {
                lemma_shape_keeps(t1, n.table);
                assert forall|j: int| 0 <= j < n.table.len() && (#[trigger] n.table[j]).used implies 1 <= n.table[j].order
                    <= w2.len() && w2[n.table[j].order - 1] == n.table[j].key by {
                    assert(t1[j].used);
                }
                assert forall|p: int| 0 <= p < w2.len() implies index_of(n.table, #[trigger] w2[p]) >= 0
                    && n.table[index_of(n.table, w2[p])].used && n.table[index_of(n.table, w2[p])].order == p + 1 by {
                    let k = index_of(t1, w2[p]);
                    lemma_index_of(t1, w2[p]);
                    assert(k >= 0);
                    assert(index_of(n.table, w2[p]) == k);
                    assert(n.table[k].used == t1[k].used && n.table[k].order == t1[k].order);
                }
            }
        } else {
            let j = index_of(s.table, s.pending);
            assert(numbered_by(n.table, w)) by {
                assert forall|a: int| 0 <= a < n.table.len() && (#[trigger] n.table[a]).used implies 1 <= n.table[a].order
                    <= w.len() && w[n.table[a].order - 1] == n.table[a].key by {
                    assert(s.table[a].used);
                }
                assert forall|p: int| 0 <= p < w.len() implies index_of(n.table, #[trigger] w[p]) >= 0
                    && n.table[index_of(n.table, w[p])].used && n.table[index_of(n.table, w[p])].order == p + 1 by {
                    let k = index_of(s.table, w[p]);
                    lemma_index_of(s.table, w[p]);
                    assert(k >= 0);
                    assert(index_of(n.table, w[p]) == k);
                    assert(n.table[k].used == s.table[k].used && n.table[k].order == s.table[k].order);
                }
            }
        }
    }
}

proof fn lemma_run_numbered(s: ParseState, toks: Seq<Seq<char>>, w: Seq<Seq<char>>)
    requires
        numbered_by(s.table, w),
        s.count == w.len(),
        s.count + toks.len() <= usize::MAX,
        same_shape(declared_table(), s.table),
        keys_unique(s.table),
        distinct_words(w + key_words(declared_table(), s.expect_key, toks)),
    ensures
        parse_run(s, toks) matches Some(n) ==> numbered_by(n.table, w + key_words(declared_table(), s.expect_key, toks)),
    decreases toks.len(),
{
    let d = declared_table();
    if toks.len() == 0 {
        assert(w + key_words(d, s.expect_key, toks) =~= w);
    } else {
        let tok = toks[0];
        let rest = toks.drop_first();
        let all = w + key_words(d, s.expect_key, toks);
        if s.expect_key {
            let x = key_words(d, d[index_of(d, tok)].only_key, rest);
            assert(all =~= w.push(tok) + x);
            assert(!w.contains(tok)) by {
                if w.contains(tok) {
                    let p = choose|p: int| 0 <= p < w.len() && w[p] == tok;
                    assert(all[p] == tok && all[w.len() as int] == tok);
                }
            }
        } else {
            assert(all =~= w + key_words(d, true, rest));
        }
        lemma_step_numbered(s, tok, w);
        if let Some(n) = parse_step(s, tok) {
            let w2 = if s.expect_key { w.push(tok) } else { w };
            lemma_run_numbered(n, rest, w2);
        }
    }
}

proof fn lemma_no_order(t: Seq<ActionView>, o: usize)
    requires
        forall|j: int| 0 <= j < t.len() ==> (#[trigger] t[j]).order != o,
    ensures
        first_with_order(t, o) is None,
    decreases t.len(),
{
    if t.len() > 0 {
        let q = t.drop_first();
        assert forall|j: int| 0 <= j < q.len() implies (#[trigger] q[j]).order != o by {
            assert(q[j] == t[j + 1]);
        }
        assert(t[0].order != o);
        lemma_no_order(q, o);
    }
}

proof fn lemma_final_numbered(args: Seq<Seq<char>>)
    requires
        2 <= args.len() <= usize::MAX,
        parse_arguments(args) is Some,
        distinct_words(argument_words(args)),
    ensures
        argument_words(args).len() < args.len(),
        numbered_by(final_state(args).table, argument_words(args)),
        keys_unique(final_state(args).table),
        parsed(args) == active_only(final_state(args).table),
{
    let toks = args.skip(1);
    let d = declared_table();
    let w = argument_words(args);
    lemma_key_words_len(d, true, toks);
    lemma_final_state(args);
    lemma_table_of(declared_actions());
    let dl = declared_actions();
    assert forall|i: int| 0 <= i < dl.len() implies !(#[trigger] dl[i]).used by {}
    lemma_table_of_unused(dl);
    let e = Seq::<Seq<char>>::empty();
    assert(e + w =~= w);
    assert(numbered_by(d, e));
    assert(same_shape(d, d));
    lemma_run_numbered(start_state(d), toks, e);
}

/// Each entry of `r` is numbered by the position of its key in `w`.
spec fn numbered_rows(r: Seq<ActionView>, w: Seq<Seq<char>>) -> bool {
    forall|j: int| 0 <= j < r.len() ==> 1 <= (#[trigger] r[j]).order <= w.len() && w[r[j].order - 1] == r[j].key
}

proof fn lemma_numbered_rows(t: Seq<ActionView>, w: Seq<Seq<char>>)
    requires
        numbered_by(t, w),
    ensures
        numbered_rows(active_only(t), w),
{
    let r = active_only(t);
    lemma_active_only_from(t);
    assert forall|j: int| 0 <= j < r.len() implies 1 <= (#[trigger] r[j]).order <= w.len() && w[r[j].order - 1] == r[j].key by {
        let a = choose|a: int| 0 <= a < t.len() && #[trigger] t[a] == r[j];
        assert(t[a].used);
    }
}

proof fn lemma_numbered_found(t: Seq<ActionView>, w: Seq<Seq<char>>, p: int)
    requires
        numbered_by(t, w),
        numbered_rows(active_only(t), w),
        keys_unique(active_only(t)),
        0 <= p < w.len(),
    ensures
        first_with_order(active_only(t), (p + 1) as usize) == Some(w[p]),
{
    let r = active_only(t);
    let idx = index_of(t, w[p]);
    lemma_index_of(t, w[p]);
    assert(t[idx].used);
    lemma_active_only_complete(t);
    let i = choose|i: int| 0 <= i < r.len() && r[i] == t[idx];
    assert forall|j: int| 0 <= j < r.len() && j != i implies (#[trigger] r[j]).order != r[i].order by {
        if r[j].order == r[i].order {
            assert(r[j].key == w[p]);
            assert(r[i].key == w[p]);
        }
    }
    lemma_first_with_order(r, i);
}

proof fn lemma_numbered_none(r: Seq<ActionView>, w: Seq<Seq<char>>, o: usize)
    requires
        numbered_rows(r, w),
        o == 0 || o > w.len(),
    ensures
        first_with_order(r, o) is None,
{
    assert forall|j: int| 0 <= j < r.len() implies (#[trigger] r[j]).order != o by {}
    lemma_no_order(r, o);
}

/// Of a command line that parses and names no argument twice: the argument
/// given in the `p`-th argument place (counting from 1) is the one that
/// number `p` finds in the table, and no other number finds one.
pub proof fn law_parsed_positions(args: Seq<Seq<char>>)
    requires
        2 <= args.len() <= usize::MAX,
        parse_arguments(args) is Some,
        distinct_words(argument_words(args)),
    ensures
        argument_words(args).len() < args.len(),
        forall|p: int|
            0 <= p < argument_words(args).len() ==> first_with_order(parsed(args), (p + 1) as usize) == Some(
                #[trigger] argument_words(args)[p],
            ),
        forall|o: usize|
            o == 0 || o > argument_words(args).len() ==> #[trigger] first_with_order(parsed(args), o) is None,
{
    lemma_final_numbered(args);
    let t = final_state(args).table;
    let w = argument_words(args);
    lemma_numbered_rows(t, w);
    lemma_active_only_unique(t);
    assert forall|p: int| 0 <= p < w.len() implies first_with_order(parsed(args), (p + 1) as usize) == Some(
        #[trigger] w[p],
    ) by {
        lemma_numbered_found(t, w, p);
    }
    assert forall|o: usize| o == 0 || o > w.len() implies #[trigger] first_with_order(parsed(args), o) is None by {
        lemma_numbered_none(active_only(t), w, o);
    }
}

/// The usage text that the program prints when it is run without
/// arguments.
pub open spec fn banner_spec(version: Seq<char>) -> Seq<char> {
    "psm password manager version "@ + version
        + "\nUsage: psm [OPTIONS...] \n\n  create - to create a new password\n  name - set name for your password\n  password - set the password\n  description - set description of your password\n  get - get the password\n  info - more info about how it works\n  key - set key for password\n"@
}

/// The usage text for the given version.
pub fn banner_text(version: &str) -> (res: String)
    ensures
        res@ == banner_spec(version@),
{
    let mut s = String::from_str("psm password manager version ");
    s.append(version);
    s.append(
        "\nUsage: psm [OPTIONS...] \n\n  create - to create a new password\n  name - set name for your password\n  password - set the password\n  description - set description of your password\n  get - get the password\n  info - more info about how it works\n  key - set key for password\n",
    );
    s
}
/// Calling `name`, `description`, `key` or `password` against a table
/// whose keys are distinct replies with the value of that table's entry of
/// the same key, whatever other entries the table holds.
pub proof fn law_value_callbacks_reply(t: Seq<ActionView>, i: int)
    requires
        keys_unique(t),
        0 <= i < t.len(),
    ensures
        t[i].key == "name"@ ==> call_spec(Some(Callback::Name), t) == DispatchView::Reply(
            Ok::<Seq<char>, Seq<char>>(t[i].value),
        ),
        t[i].key == "description"@ ==> call_spec(Some(Callback::Description), t) == DispatchView::Reply(
            Ok::<Seq<char>, Seq<char>>(t[i].value),
        ),
        t[i].key == "key"@ ==> call_spec(Some(Callback::Key), t) == DispatchView::Reply(
            Ok::<Seq<char>, Seq<char>>(t[i].value),
        ),
        t[i].key == "password"@ ==> call_spec(Some(Callback::Password), t) == DispatchView::Reply(
            Ok::<Seq<char>, Seq<char>>(t[i].value),
        ),
{
    lemma_index_of(t, t[i].key);
    assert(has_key(t, t[i].key));
}

/// Whether the `j`-th word of `toks` (from 0) stands in an argument's place,
/// given the table `t` of known arguments: the first word does, and a word
/// does after a word in an argument's place that takes no value, or after a
/// value.
pub open spec fn at_argument_place(t: Seq<ActionView>, toks: Seq<Seq<char>>, j: int) -> bool
    decreases j,
{
    if j <= 0 {
        true
    } else if at_argument_place(t, toks, j - 1) {
        t[index_of(t, toks[j - 1])].only_key
    } else {
        true
    }
}

/// Whether the `j`-th word of a command line (program path first) stands in
/// an argument's place.
pub open spec fn argument_place(args: Seq<Seq<char>>, j: int) -> bool {
    1 <= j < args.len() && at_argument_place(declared_table(), args.skip(1), j - 1)
}

/// Whether the known argument `k` takes a value.
pub open spec fn takes_value(k: Seq<char>) -> bool {
    !declared_table()[index_of(declared_table(), k)].only_key
}

/// Whether the argument at place `j` of the command line is named again at
/// a later argument place.
pub open spec fn named_again(args: Seq<Seq<char>>, j: int) -> bool {
    exists|k: int| j < k < args.len() && #[trigger] argument_place(args, k) && args[k] == args[j]
}

/// What holds after the parser has read the first `m` words of `toks`.
spec fn values_inv(s: ParseState, toks: Seq<Seq<char>>, m: int) -> bool {
    let d = declared_table();
    &&& same_shape(d, s.table)
    &&& keys_unique(s.table)
    &&& s.expect_key == at_argument_place(d, toks, m)
    &&& !s.expect_key ==> (1 <= m && s.pending == toks[m - 1] && index_of(s.table, toks[m - 1]) >= 0
        && s.table[index_of(s.table, toks[m - 1])].used)
    &&& forall|j: int|
        0 <= j < m && #[trigger] at_argument_place(d, toks, j) ==> index_of(s.table, toks[j]) >= 0
            && s.table[index_of(s.table, toks[j])].used
    &&& forall|j: int|
        0 <= j && j + 1 < m && #[trigger] at_argument_place(d, toks, j) && !d[index_of(d, toks[j])].only_key
            && (forall|k: int| j < k < m && at_argument_place(d, toks, k) ==> toks[k] != toks[j])
            ==> s.table[index_of(s.table, toks[j])].value == toks[j + 1]
}

proof fn lemma_shape_trans(a: Seq<ActionView>, b: Seq<ActionView>, c: Seq<ActionView>)
    requires
        same_shape(a, b),
        same_shape(b, c),
    ensures
        same_shape(a, c),
{
    assert forall|i: int| 0 <= i < a.len() implies (#[trigger] a[i]).key == c[i].key && a[i].only_key == c[i].only_key
        && a[i].callback == c[i].callback && a[i].description == c[i].description && a[i].priority
        == c[i].priority by {
        assert(a[i].key == b[i].key);
        assert(b[i].key == c[i].key);
    }
}

proof fn lemma_values_step(s: ParseState, toks: Seq<Seq<char>>, m: int)
    requires
        values_inv(s, toks, m),
        0 <= m < toks.len(),
    ensures
        parse_step(s, toks[m]) matches Some(n) ==> values_inv(n, toks, m + 1),
{
    let d = declared_table();
    let tok = toks[m];
    lemma_step_shape(s, tok);
    lemma_shape_keeps(d, s.table);
    lemma_index_of(s.table, tok);
    lemma_index_of(s.table, s.pending);
    if let Some(n) = parse_step(s, tok) {
        lemma_shape_trans(d, s.table, n.table);
        lemma_shape_keeps(s.table, n.table);
        lemma_shape_keeps(d, n.table);
        if s.expect_key {
            let i = index_of(s.table, tok);
            let t1 = s.table.update(i, ActionView { order: (s.count + 1) as usize, used: true, ..s.table[i] });
            lemma_index_of(t1, s.pending);
            assert(forall|a: int| 0 <= a < n.table.len() ==> (#[trigger] n.table[a]).value == s.table[a].value);
            assert(forall|a: int|
                0 <= a < n.table.len() && (#[trigger] s.table[a]).used ==> n.table[a].used);
            assert(n.table[i].used);
            assert(i == index_of(d, tok));
            assert(n.expect_key == at_argument_place(d, toks, m + 1));
            assert forall|j: int| 0 <= j < m + 1 && #[trigger] at_argument_place(d, toks, j) implies index_of(
                n.table,
                toks[j],
            ) >= 0 && n.table[index_of(n.table, toks[j])].used by {
                let idx = index_of(s.table, toks[j]);
                lemma_index_of(s.table, toks[j]);
                assert(index_of(n.table, toks[j]) == idx);
                if j < m {
                    assert(s.table[idx].used);
                    assert(n.table[idx].used);
                } else {
                    assert(idx == i);
                }
            }
            assert forall|j: int|
                0 <= j && j + 1 < m + 1 && #[trigger] at_argument_place(d, toks, j) && !d[index_of(
                    d,
                    toks[j],
                )].only_key && (forall|k: int| j < k < m + 1 && at_argument_place(d, toks, k) ==> toks[k] != toks[j])
                implies n.table[index_of(n.table, toks[j])].value == toks[j + 1] by {
                let idx = index_of(s.table, toks[j]);
                lemma_index_of(s.table, toks[j]);
                assert(index_of(n.table, toks[j]) == idx);
                if j + 1 == m {
                    assert(!at_argument_place(d, toks, m));
                } else {
                    assert(forall|k: int| j < k < m && at_argument_place(d, toks, k) ==> toks[k] != toks[j]);
                    assert(s.table[idx].value == toks[j + 1]);
                    assert(n.table[idx].value == s.table[idx].value);
                }
            }
        } else {
            let jj = index_of(s.table, s.pending);
            assert(jj == index_of(s.table, toks[m - 1]));
            assert(at_argument_place(d, toks, m - 1));
            assert(forall|a: int| 0 <= a < n.table.len() ==> (#[trigger] n.table[a]).used == s.table[a].used);
            assert(forall|a: int| 0 <= a < n.table.len() && a != jj ==> (#[trigger] n.table[a]).value == s.table[a].value);
            assert(n.table[jj].value == tok);
            assert forall|j: int| 0 <= j < m + 1 && #[trigger] at_argument_place(d, toks, j) implies index_of(
                n.table,
                toks[j],
            ) >= 0 && n.table[index_of(n.table, toks[j])].used by {
                let idx = index_of(s.table, toks[j]);
                lemma_index_of(s.table, toks[j]);
                assert(index_of(n.table, toks[j]) == idx);
                assert(s.table[idx].used);
                assert(n.table[idx].used == s.table[idx].used);
            }
            assert forall|j: int|
                0 <= j && j + 1 < m + 1 && #[trigger] at_argument_place(d, toks, j) && !d[index_of(
                    d,
                    toks[j],
                )].only_key && (forall|k: int| j < k < m + 1 && at_argument_place(d, toks, k) ==> toks[k] != toks[j])
                implies n.table[index_of(n.table, toks[j])].value == toks[j + 1] by {
                if j + 1 < m {
                    assert(toks[m - 1] != toks[j]);
                    lemma_index_of(s.table, toks[j]);
                    assert(index_of(s.table, toks[j]) != jj);
                    assert(s.table[index_of(s.table, toks[j])].value == toks[j + 1]);
                }
            }
        }
    }
}

proof fn lemma_values_run(s: ParseState, toks: Seq<Seq<char>>, m: int)
    requires
        values_inv(s, toks, m),
        0 <= m <= toks.len(),
    ensures
        parse_run(s, toks.skip(m)) matches Some(n) ==> values_inv(n, toks, toks.len() as int),
    decreases toks.len() - m,
{
    if m < toks.len() {
        assert(toks.skip(m)[0] == toks[m]);
        assert(toks.skip(m).drop_first() =~= toks.skip(m + 1));
        lemma_values_step(s, toks, m);
        if let Some(n) = parse_step(s, toks[m]) {
            lemma_values_run(n, toks, m + 1);
        }
    } else {
        assert(toks.skip(m).len() == 0);
    }
}

/// Of a command line that parses: an argument that takes a value, given at
/// an argument place and not named again later, holds as its value exactly
/// the word that follows it on the command line.
pub proof fn law_parsed_values(args: Seq<Seq<char>>)
    requires
        2 <= args.len() <= usize::MAX,
        parse_arguments(args) is Some,
    ensures
        forall|j: int|
            #[trigger] argument_place(args, j) && j + 1 < args.len() && takes_value(args[j]) && !named_again(args, j)
                ==> has_key(parsed(args), args[j]) && value_of(parsed(args), args[j]) == args[j + 1],
{
    let d = declared_table();
    let toks = args.skip(1);
    let s0 = start_state(d);
    lemma_table_of(declared_actions());
    assert(same_shape(d, d));
    assert(values_inv(s0, toks, 0));
    assert(toks.skip(0) =~= toks);
    lemma_values_run(s0, toks, 0);
    lemma_final_state(args);
    let fin = final_state(args);
    let r = parsed(args);
    lemma_active_only_complete(fin.table);
    lemma_active_only_unique(fin.table);
    assert forall|j: int|
        #[trigger] argument_place(args, j) && j + 1 < args.len() && takes_value(args[j]) && !named_again(args, j)
            implies has_key(r, args[j]) && value_of(r, args[j]) == args[j + 1] by {
        let q = j - 1;
        assert(toks[q] == args[j]);
        assert(toks[q + 1] == args[j + 1]);
        assert forall|k: int| q < k < toks.len() && at_argument_place(d, toks, k) implies toks[k] != toks[q] by {
            assert(argument_place(args, k + 1));
            assert(toks[k] == args[k + 1]);
        }
        let idx = index_of(fin.table, toks[q]);
        lemma_index_of(fin.table, toks[q]);
        assert(fin.table[idx].used);
        let i = choose|i: int| 0 <= i < r.len() && r[i] == fin.table[idx];
        lemma_index_of(r, args[j]);
        assert(r[i].key == args[j]);
        assert(has_key(r, args[j]));
    }
}

} // verus!
