//! The earlier form of the command-line argument table: every known word
//! stays in the table, unknown words are passed over, and arguments carry
//! no priority and no link to the next one.

use vstd::prelude::*;
use crate::args::{Dispatch, DispatchView, VERSION};

verus! {

/// What an argument runs when it is called.
#[derive(Clone, Copy, Debug, PartialEq, Eq, Structural)]
pub enum Callback {
    Init,
    Version,
    Get,
    Remove,
    Name,
    Create,
    Description,
    Key,
}

/// The mathematical model of an [`ArgAction`].
pub struct ActionView {
    pub key: Seq<char>,
    pub value: Seq<char>,
    pub only_key: bool,
    pub used: bool,
    pub callback: Callback,
    pub description: Seq<char>,
    pub order: usize,
}

/// One known word of the command line.
#[derive(Clone, Debug)]
pub struct ArgAction {
    key: &'static str,
    value: String,
    only_key: bool,
    used: bool,
    callback: Callback,
    description: &'static str,
    order: usize,
}

impl View for ArgAction {
    type V = ActionView;

    closed spec fn view(&self) -> ActionView {
        ActionView {
            key: self.key@,
            value: self.value@,
            only_key: self.only_key,
            used: self.used,
            callback: self.callback,
            description: self.description@,
            order: self.order,
        }
    }
}

/// The model of a freshly declared argument: value "TMP", unused, order 0.
pub open spec fn fresh_action(key: Seq<char>, callback: Callback, only_key: bool, description: Seq<char>) -> ActionView {
    ActionView { key, value: "TMP"@, only_key, used: false, callback, description, order: 0 }
}

impl ArgAction {
    fn new(key: &'static str, callback: Callback, only_key: bool, description: &'static str) -> (res: (
        &'static str,
        ArgAction,
    ))
        ensures
            res.0@ == key@,
            res.1@ == fresh_action(key@, callback, only_key, description@),
    {
        (
            key,
            ArgAction {
                key,
                value: String::from_str("TMP"),
                callback,
                used: false,
                only_key,
                description,
                order: 0,
            },
        )
    }

    /// Whether the argument was given on the command line.
    #[allow(non_snake_case)]
    pub fn isActive(&self) -> (res: bool)
        ensures
            res == self@.used,
    {
        self.used
    }

    fn active(&mut self)
        ensures
            final(self)@ == (ActionView { used: true, ..old(self)@ }),
    {
        self.used = true;
    }

    pub fn get_key(&self) -> (res: &str)
        ensures
            res@ == self@.key,
    {
        self.key
    }

    pub fn set_value(&mut self, value: String)
        ensures
            final(self)@ == (ActionView { value: value@, ..old(self)@ }),
    {
        self.value = value;
    }

    pub fn set_order(&mut self, value: usize)
        ensures
            final(self)@ == (ActionView { order: value, ..old(self)@ }),
    {
        self.order = value;
    }

    pub fn get_order(&self) -> (res: usize)
        ensures
            res == self@.order,
    {
        self.order
    }

    pub fn get_desc(&self) -> (res: &'static str)
        ensures
            res@ == self@.description,
    {
        self.description
    }

    /// A copy of the argument's value.
    pub fn get_value(&self) -> (res: String)
        ensures
            res@ == self@.value,
    {
        self.value.clone()
    }

    /// Accepts the argument's value only if it is one of `deps`.
    pub fn validate_value(&self, deps: Vec<&'static str>) -> (res: Result<(), String>)
        ensures
            res is Ok <==> deps@.map_values(|d: &'static str| d@).contains(self@.value),
            res matches Err(e) ==> e@ == "Can't validate the command mode!"@,
    {
        let mut i: usize = 0;
        let ghost ds = deps@.map_values(|d: &'static str| d@);
        while i < deps.len()
            invariant
                i <= deps@.len(),
                ds == deps@.map_values(|d: &'static str| d@),
                forall|j: int| 0 <= j < i ==> deps@[j]@ != self@.value,
            decreases deps@.len() - i,
        {
            if crate::text::str_equal(deps[i], self.value.as_str()) {
                assert(ds[i as int] == self@.value);
                return Ok(());
            }
            i = i + 1;
        }
        proof {
            if ds.contains(self@.value) {
                let j = choose|j: int| 0 <= j < ds.len() && ds[j] == self@.value;
                assert(deps@[j]@ == ds[j]);
            }
        }
        Err(String::from_str("Can't validate the command mode!"))
    }

    /// Runs the argument's callback against the table `ref_action`.
    pub fn call(&self, ref_action: &ArgMap) -> (res: Dispatch)
        requires
            callback_ready(self@.callback, ref_action@),
        ensures
            res@ == call_spec(self@.callback, ref_action@),
    {
        match self.callback {
            Callback::Init => Dispatch::Init,
            Callback::Version => Dispatch::Reply(version_callback(ref_action)),
            Callback::Get => Dispatch::Reply(get_callback(ref_action)),
            Callback::Remove => Dispatch::Remove,
            Callback::Name => Dispatch::Reply(name_callback(ref_action)),
            Callback::Create => Dispatch::Create,
            Callback::Description => Dispatch::Reply(description_callback(ref_action)),
            Callback::Key => Dispatch::Reply(key_callback(ref_action)),
        }
    }
}

/// The position of the first entry whose key is `k`, or -1.
pub open spec fn index_of(t: Seq<ActionView>, k: Seq<char>) -> int
    decreases t.len(),
{
    if t.len() == 0 {
        -1
    } else if t.last().key == k {
        let r = index_of(t.drop_last(), k);
        if r >= 0 { r } else { t.len() - 1 }
    } else {
        index_of(t.drop_last(), k)
    }
}

/// Whether some entry has the key `k`.
pub open spec fn has_key(t: Seq<ActionView>, k: Seq<char>) -> bool {
    exists|i: int| 0 <= i < t.len() && #[trigger] t[i].key == k
}

/// No two entries share a key.
pub open spec fn keys_unique(t: Seq<ActionView>) -> bool {
    forall|i: int, j: int| 0 <= i < t.len() && 0 <= j < t.len() && i != j ==> #[trigger] t[i].key != #[trigger] t[j].key
}

/// What `index_of` computes: the first position holding the key.
pub proof fn lemma_index_of(t: Seq<ActionView>, k: Seq<char>)
    ensures
        -1 <= index_of(t, k) < t.len(),
        index_of(t, k) >= 0 ==> t[index_of(t, k)].key == k,
        forall|j: int| 0 <= j < index_of(t, k) ==> t[j].key != k,
        index_of(t, k) == -1 <==> !has_key(t, k),
    decreases t.len(),
{
    if t.len() > 0 {
        let p = t.drop_last();
        lemma_index_of(p, k);
        assert forall|j: int| 0 <= j < p.len() implies p[j] == t[j] by {}
        if has_key(t, k) && index_of(t, k) == -1 {
            let w = choose|i: int| 0 <= i < t.len() && #[trigger] t[i].key == k;
            if w < p.len() {
                assert(p[w].key == k);
            }
        }
        if has_key(p, k) {
            let w = choose|i: int| 0 <= i < p.len() && #[trigger] p[i].key == k;
            assert(t[w].key == k);
        }
        if t.last().key == k {
            assert(t[t.len() - 1].key == k);
        }
    }
}

/// The argument table: the known words, in the order they were declared.
#[derive(Debug)]
pub struct ArgMap {
    entries: Vec<ArgAction>,
}

impl View for ArgMap {
    type V = Seq<ActionView>;

    closed spec fn view(&self) -> Seq<ActionView> {
        self.entries@.map_values(|a: ArgAction| a@)
    }
}

impl ArgMap {
    /// No two entries share a key.
    #[verifier::type_invariant]
    spec fn well_formed(self) -> bool {
        keys_unique(self@)
    }

    /// An empty table.
    pub fn new() -> (res: ArgMap)
        ensures
            res@ == Seq::<ActionView>::empty(),
    {
        let res = ArgMap { entries: Vec::new() };
        assert(res@ =~= Seq::<ActionView>::empty());
        res
    }

    /// The number of entries.
    pub fn len(&self) -> (res: usize)
        ensures
            res == self@.len(),
    {
        self.entries.len()
    }

    /// The position of the entry with the key `key`.
    pub fn position(&self, key: &str) -> (res: Option<usize>)
        ensures
            match res {
                Some(i) => i as int == index_of(self@, key@),
                None => index_of(self@, key@) == -1,
            },
    {
        let n: usize = self.entries.len();
        let mut i: usize = 0;
        proof {
            lemma_index_of(self@, key@);
        }
        while i < n
            invariant
                n == self@.len(),
                i <= n,
                forall|j: int| 0 <= j < i ==> self@[j].key != key@,
                -1 <= index_of(self@, key@) < self@.len(),
                index_of(self@, key@) >= 0 ==> self@[index_of(self@, key@)].key == key@,
                forall|j: int| 0 <= j < index_of(self@, key@) ==> self@[j].key != key@,
                index_of(self@, key@) == -1 <==> !has_key(self@, key@),
            decreases n - i,
        {
            let found: bool = crate::text::str_equal(self.entries[i].key, key);
            assert(self@[i as int] == self.entries@[i as int]@);
            if found {
                proof {
                    assert(self@[i as int].key == key@);
                    assert(has_key(self@, key@));
                }
                return Some(i);
            }
            i = i + 1;
        }
        proof {
            if index_of(self@, key@) >= 0 {
                assert(self@[index_of(self@, key@)].key == key@);
            }
        }
        None
    }

    /// The entry with the key `key`, if there is one.
    pub fn get(&self, key: &str) -> (res: Option<&ArgAction>)
        ensures
            match res {
                Some(a) => index_of(self@, key@) >= 0 && a@ == self@[index_of(self@, key@)],
                None => index_of(self@, key@) == -1,
            },
    {
        match self.position(key) {
            Some(i) => {
                proof {
                    lemma_index_of(self@, key@);
                }
                Some(&self.entries[i])
            },
            None => None,
        }
    }
}


/// The table after declaring `a`: an entry with the same key is replaced in
/// place, a new key goes to the end.
pub open spec fn insert_action(t: Seq<ActionView>, a: ActionView) -> Seq<ActionView> {
    let i = index_of(t, a.key);
    if i >= 0 {
        t.update(i, a)
    } else {
        t.push(a)
    }
}

/// The table that declaring each action of `list` in turn builds.
pub open spec fn table_of(list: Seq<ActionView>) -> Seq<ActionView>
    decreases list.len(),
{
    if list.len() == 0 {
        Seq::empty()
    } else {
        insert_action(table_of(list.drop_last()), list.last())
    }
}

pub proof fn lemma_insert_action(t: Seq<ActionView>, a: ActionView)
    ensures
        keys_unique(t) ==> keys_unique(insert_action(t, a)),
{
    lemma_index_of(t, a.key);
    let r = insert_action(t, a);
    if keys_unique(t) {
        assert forall|i: int, j: int| 0 <= i < r.len() && 0 <= j < r.len() && i != j implies #[trigger] r[i].key != #[trigger] r[j].key by {
            if index_of(t, a.key) < 0 {
                if i == t.len() {
                    assert(!has_key(t, a.key));
                    assert(t[j].key != a.key);
                } else if j == t.len() {
                    assert(!has_key(t, a.key));
                    assert(t[i].key != a.key);
                }
            }
        }
    }
}

pub proof fn lemma_table_of(list: Seq<ActionView>)
    ensures
        keys_unique(table_of(list)),
    decreases list.len(),
{
    if list.len() > 0 {
        let p = list.drop_last();
        lemma_table_of(p);
        lemma_insert_action(table_of(p), list.last());
    }
}

proof fn lemma_table_of_unused(list: Seq<ActionView>)
    requires
        forall|i: int| 0 <= i < list.len() ==> !(#[trigger] list[i]).used && list[i].order == 0,
    ensures
        forall|i: int| 0 <= i < table_of(list).len() ==> !(#[trigger] table_of(list)[i]).used && table_of(list)[i].order == 0,
    decreases list.len(),
{
    if list.len() > 0 {
        let p = list.drop_last();
        assert forall|i: int| 0 <= i < p.len() implies !(#[trigger] p[i]).used && p[i].order == 0 by {
            assert(p[i] == list[i]);
        }
        lemma_table_of_unused(p);
        let t = table_of(p);
        let a = list.last();
        assert(!a.used && a.order == 0);
        lemma_index_of(t, a.key);
        let r = insert_action(t, a);
        assert forall|i: int| 0 <= i < r.len() implies !(#[trigger] r[i]).used && r[i].order == 0 by {
            if i < t.len() && i != index_of(t, a.key) {
                assert(r[i] == t[i]);
            }
        }
    }
}

impl ArgMap {
    /// Declares `a`: an entry with the same key is replaced in place, a new
    /// key goes to the end.
    pub fn insert(&mut self, a: ArgAction)
        ensures
            final(self)@ == insert_action(old(self)@, a@),
    {
        let ghost av = a@;
        let ghost before = self@;
        proof {
            use_type_invariant(&*self);
            lemma_index_of(before, av.key);
            lemma_insert_action(before, av);
        }
        let pos = self.position(a.key);
        let mut entries: Vec<ArgAction> = Vec::new();
        std::mem::swap(&mut entries, &mut self.entries);
        assert(entries@.map_values(|e: ArgAction| e@) =~= before);
        match pos {
            Some(i) => {
                entries.set(i, a);
                assert(entries@.map_values(|e: ArgAction| e@) =~= before.update(i as int, av));
            },
            None => {
                entries.push(a);
                assert(entries@.map_values(|e: ArgAction| e@) =~= before.push(av));
            },
        }
        self.entries = entries;
    }

    /// Builds the table by declaring each action of `list` in turn.
    pub fn from_actions(list: Vec<ArgAction>) -> (res: ArgMap)
        ensures
            res@ == table_of(list@.map_values(|a: ArgAction| a@)),
    {
        let ghost all = list@.map_values(|a: ArgAction| a@);
        let mut rest = list;
        let mut res = ArgMap::new();
        let mut k: usize = 0;
        let n: usize = rest.len();
        while rest.len() > 0
            invariant
                all.len() == n,
                k + rest@.len() == n,
                rest@.map_values(|a: ArgAction| a@) =~= all.skip(k as int),
                res@ == table_of(all.take(k as int)),
            decreases rest@.len(),
        {
            let ghost pre = rest@;
            let a = rest.remove(0);
            proof {
                assert(pre.map_values(|a: ArgAction| a@)[0] == pre[0]@);
                assert(all.skip(k as int)[0] == all[k as int]);
                assert(a@ == all[k as int]);
                assert(rest@ =~= pre.drop_first());
                assert forall|j: int| 0 <= j < rest@.len() implies #[trigger] rest@[j]@ == all[k + 1 + j] by {
                    assert(pre.map_values(|a: ArgAction| a@)[j + 1] == pre[j + 1]@);
                    assert(all.skip(k as int)[j + 1] == all[k + 1 + j]);
                }
                assert(rest@.map_values(|a: ArgAction| a@) =~= all.skip(k + 1));
                assert(all.take(k + 1).drop_last() =~= all.take(k as int));
                assert(all.take(k + 1).last() == all[k as int]);
            }
            res.insert(a);
            k = k + 1;
            assert(rest@.map_values(|a: ArgAction| a@) =~= all.skip(k as int));
        }
        assert(all.take(n as int) =~= all);
        res
    }

    fn activate_at(&mut self, i: usize, order: usize)
        requires
            i < old(self)@.len(),
        ensures
            final(self)@ == old(self)@.update(i as int, ActionView { order, used: true, ..old(self)@[i as int] }),
    {
        let ghost before = self@;
        proof {
            use_type_invariant(&*self);
        }
        let mut entries: Vec<ArgAction> = Vec::new();
        std::mem::swap(&mut entries, &mut self.entries);
        assert(entries@.map_values(|e: ArgAction| e@) =~= before);
        assert(entries@[i as int]@ == before[i as int]);
        let mut a = entries.remove(i);
        a.set_order(order);
        a.active();
        let ghost av = a@;
        entries.insert(i, a);
        let ghost after = before.update(i as int, av);
        assert(entries@.map_values(|e: ArgAction| e@) =~= after);
        assert forall|j: int, k: int| 0 <= j < after.len() && 0 <= k < after.len() && j != k implies #[trigger] after[j].key
            != #[trigger] after[k].key by {
            assert(before[j].key != before[k].key);
        }
        self.entries = entries;
    }

    fn set_value_at(&mut self, i: usize, value: String)
        requires
            i < old(self)@.len(),
        ensures
            final(self)@ == old(self)@.update(i as int, ActionView { value: value@, ..old(self)@[i as int] }),
    {
        let ghost before = self@;
        proof {
            use_type_invariant(&*self);
        }
        let mut entries: Vec<ArgAction> = Vec::new();
        std::mem::swap(&mut entries, &mut self.entries);
        assert(entries@.map_values(|e: ArgAction| e@) =~= before);
        assert(entries@[i as int]@ == before[i as int]);
        let mut a = entries.remove(i);
        a.set_value(value);
        let ghost av = a@;
        entries.insert(i, a);
        let ghost after = before.update(i as int, av);
        assert(entries@.map_values(|e: ArgAction| e@) =~= after);
        assert forall|j: int, k: int| 0 <= j < after.len() && 0 <= k < after.len() && j != k implies #[trigger] after[j].key
            != #[trigger] after[k].key by {
            assert(before[j].key != before[k].key);
        }
        self.entries = entries;
    }

    fn is_used_at(&self, i: usize) -> (res: bool)
        requires
            i < self@.len(),
        ensures
            res == self@[i as int].used,
    {
        self.entries[i].used
    }

    fn only_key_at(&self, i: usize) -> (res: bool)
        requires
            i < self@.len(),
        ensures
            res == self@[i as int].only_key,
    {
        self.entries[i].only_key
    }
}



/// The arguments that the program knows, in the order it declares them.
pub open spec fn declared_actions() -> Seq<ActionView> {
    seq![
        fresh_action("init"@, Callback::Init, true, "To initilize the password environment"@),
        fresh_action("version"@, Callback::Version, true, "print the program's version"@),
        fresh_action("get"@, Callback::Get, true, "get the password by name"@),
        fresh_action("remove"@, Callback::Remove, false, "remove data [name, all, date]"@),
        fresh_action("name"@, Callback::Name, false, "set a name for password [text]"@),
        fresh_action("create"@, Callback::Create, true, "create a new password"@),
        fresh_action("description"@, Callback::Description, false, "set description for password [text]"@),
        fresh_action("key"@, Callback::Key, false, "set key to encrypt the passwords [text]"@),
    ]
}

/// The table of known arguments before any is given.
pub open spec fn declared_table() -> Seq<ActionView> {
    table_of(declared_actions())
}

/// Where the parser stands between two words of the command line.
pub struct ParseState {
    /// The argument table so far.
    pub table: Seq<ActionView>,
    /// Whether the next word is read as an argument (else as a value).
    pub expect_key: bool,
    /// The last argument read ("" after a value).
    pub pending: Seq<char>,
    /// How many arguments have been read.
    pub count: nat,
}

/// Reads one word. Where an argument is expected, a known argument is
/// marked used and numbered, and an unknown word is passed over. A word
/// after an argument that takes a value becomes that argument's value.
pub open spec fn parse_step(s: ParseState, tok: Seq<char>) -> ParseState {
    if s.expect_key {
        let i = index_of(s.table, tok);
        if i < 0 {
            s
        } else {
            let count = s.count + 1;
            let t1 = s.table.update(i, ActionView { order: count as usize, used: true, ..s.table[i] });
            ParseState { table: t1, expect_key: s.table[i].only_key, pending: tok, count }
        }
    } else {
        let j = index_of(s.table, s.pending);
        let t = if j >= 0 && s.table[j].used {
            s.table.update(j, ActionView { value: tok, ..s.table[j] })
        } else {
            s.table
        };
        ParseState { table: t, expect_key: true, pending: Seq::empty(), count: s.count }
    }
}

/// Reads the words `toks` in turn.
pub open spec fn parse_run(s: ParseState, toks: Seq<Seq<char>>) -> ParseState
    decreases toks.len(),
{
    if toks.len() == 0 {
        s
    } else {
        parse_run(parse_step(s, toks[0]), toks.drop_first())
    }
}

/// The state before the first word.
pub open spec fn start_state(t: Seq<ActionView>) -> ParseState {
    ParseState { table: t, expect_key: true, pending: Seq::empty(), count: 0 }
}

/// The table that a command line (program path first) yields.
pub open spec fn parse_arguments(args: Seq<Seq<char>>) -> Seq<ActionView> {
    parse_run(start_state(declared_table()), args.skip(1)).table
}

/// Two tables with the same entries up to what parsing may change.
pub open spec fn same_shape(a: Seq<ActionView>, b: Seq<ActionView>) -> bool {
    &&& a.len() == b.len()
    &&& forall|i: int|
        0 <= i < a.len() ==> {
            &&& (#[trigger] a[i]).key == b[i].key
            &&& a[i].only_key == b[i].only_key
            &&& a[i].callback == b[i].callback
            &&& a[i].description == b[i].description
        }
}

pub proof fn lemma_shape_keeps(a: Seq<ActionView>, b: Seq<ActionView>)
    requires
        same_shape(a, b),
    ensures
        keys_unique(a) ==> keys_unique(b),
{
    if keys_unique(a) {
        assert forall|i: int, j: int| 0 <= i < b.len() && 0 <= j < b.len() && i != j implies #[trigger] b[i].key != #[trigger] b[j].key by {
            assert(a[i].key != a[j].key);
        }
    }
}

/// The numbering of used entries: each is numbered between 1 and `count`,
/// no two alike.
pub open spec fn orders_ok(t: Seq<ActionView>, count: nat) -> bool {
    &&& forall|i: int| 0 <= i < t.len() && (#[trigger] t[i]).used ==> 1 <= t[i].order <= count
    &&& forall|i: int| 0 <= i < t.len() && !(#[trigger] t[i]).used ==> t[i].order == 0
    &&& forall|i: int, j: int|
        0 <= i < t.len() && 0 <= j < t.len() && i != j && (#[trigger] t[i]).used && (#[trigger] t[j]).used
            ==> t[i].order != t[j].order
}

proof fn lemma_step(s: ParseState, tok: Seq<char>)
    requires
        orders_ok(s.table, s.count),
        s.count < usize::MAX,
    ensures
        same_shape(s.table, parse_step(s, tok).table),
        orders_ok(parse_step(s, tok).table, parse_step(s, tok).count),
        s.count <= parse_step(s, tok).count <= s.count + 1,
{
    if s.expect_key {
        let i = index_of(s.table, tok);
        lemma_index_of(s.table, tok);
        if i >= 0 {
            let count = s.count + 1;
            let t1 = s.table.update(i, ActionView { order: count as usize, used: true, ..s.table[i] });
            assert forall|a: int, b: int|
                0 <= a < t1.len() && 0 <= b < t1.len() && a != b && (#[trigger] t1[a]).used && (#[trigger] t1[b]).used
                    implies t1[a].order != t1[b].order by {
                if a != i && b != i {
                    assert(s.table[a].used && s.table[b].used);
                } else if a == i {
                    assert(s.table[b].used);
                } else {
                    assert(s.table[a].used);
                }
            }
            assert forall|a: int| 0 <= a < t1.len() && (#[trigger] t1[a]).used implies 1 <= t1[a].order <= count by {
                if a != i {
                    assert(s.table[a].used);
                }
            }
            assert forall|a: int| 0 <= a < t1.len() && !(#[trigger] t1[a]).used implies t1[a].order == 0 by {
                assert(!s.table[a].used);
            }
        }
    } else {
        lemma_index_of(s.table, s.pending);
    }
}

proof fn lemma_run(s: ParseState, toks: Seq<Seq<char>>)
    requires
        orders_ok(s.table, s.count),
        s.count + toks.len() <= usize::MAX,
    ensures
        same_shape(s.table, parse_run(s, toks).table),
        orders_ok(parse_run(s, toks).table, parse_run(s, toks).count),
    decreases toks.len(),
{
    if toks.len() > 0 {
        let m = parse_step(s, toks[0]);
        lemma_step(s, toks[0]);
        lemma_run(m, toks.drop_first());
    }
}

fn declared_list() -> (res: Vec<ArgAction>)
    ensures
        res@.map_values(|a: ArgAction| a@) == declared_actions(),
{
    let mut list: Vec<ArgAction> = Vec::new();
    list.push(ArgAction::new("init", Callback::Init, true, "To initilize the password environment").1);
    list.push(ArgAction::new("version", Callback::Version, true, "print the program's version").1);
    list.push(ArgAction::new("get", Callback::Get, true, "get the password by name").1);
    list.push(ArgAction::new("remove", Callback::Remove, false, "remove data [name, all, date]").1);
    list.push(ArgAction::new("name", Callback::Name, false, "set a name for password [text]").1);
    list.push(ArgAction::new("create", Callback::Create, true, "create a new password").1);
    list.push(ArgAction::new("description", Callback::Description, false, "set description for password [text]").1);
    list.push(ArgAction::new("key", Callback::Key, false, "set key to encrypt the passwords [text]").1);
    assert(list@.map_values(|a: ArgAction| a@) =~= declared_actions());
    list
}

/// Parses a command line (program path first) against the known arguments:
/// the whole table, with the arguments that were given marked, and the
/// first word after the program path.
pub fn argument_parser(args: Vec<String>) -> (res: Result<(ArgMap, String), String>)
    requires
        args.len() >= 2,
    ensures
        res matches Ok((m, master)) && m@ == parse_arguments(crate::args::words(args@)) && master@ == args@[1]@
            && keys_unique(m@),
{
    let ghost toks = crate::args::words(args@);
    let mut keys = ArgMap::from_actions(declared_list());
    proof {
        lemma_table_of(declared_actions());
    }
    let n: usize = args.len();
    let master_arg: String = args[1].clone();
    let mut mode: bool = true;
    let mut key_tmp: String = String::new();
    let mut order_counter: usize = 0;
    let mut i: usize = 1;
    while i < n
        invariant
            toks == crate::args::words(args@),
            n == args@.len(),
            1 <= i <= n,
            order_counter < i,
            master_arg@ == args@[1]@,
            parse_run(start_state(declared_table()), toks.skip(1)) == parse_run(
                ParseState { table: keys@, expect_key: mode, pending: key_tmp@, count: order_counter as nat },
                toks.skip(i as int),
            ),
        decreases n - i,
    {
        let ghost cur = ParseState { table: keys@, expect_key: mode, pending: key_tmp@, count: order_counter as nat };
        let v: &String = &args[i];
        proof {
            assert(toks[i as int] == v@);
            assert(toks.skip(i as int)[0] == toks[i as int]);
            assert(toks.skip(i as int).drop_first() =~= toks.skip(i + 1));
        }
        if mode {
            match keys.position(v.as_str()) {
                Some(idx) => {
                    proof {
                        lemma_index_of(keys@, v@);
                    }
                    order_counter = order_counter + 1;
                    keys.activate_at(idx, order_counter);
                    if !keys.only_key_at(idx) {
                        mode = false;
                    }
                    key_tmp = v.clone();
                },
                None => {},
            }
        } else {
            proof {
                lemma_index_of(keys@, key_tmp@);
            }
            match keys.position(key_tmp.as_str()) {
                Some(j) => {
                    if keys.is_used_at(j) {
                        keys.set_value_at(j, v.clone());
                    }
                },
                None => {},
            }
            key_tmp = String::new();
            mode = true;
        }
        assert(parse_step(cur, toks[i as int]) == ParseState {
            table: keys@,
            expect_key: mode,
            pending: key_tmp@,
            count: order_counter as nat,
        });
        i = i + 1;
    }
    let ghost fin = ParseState { table: keys@, expect_key: mode, pending: key_tmp@, count: order_counter as nat };
    assert(toks.skip(n as int) =~= Seq::<Seq<char>>::empty());
    proof {
        let d = declared_actions();
        assert forall|k: int| 0 <= k < d.len() implies !(#[trigger] d[k]).used && d[k].order == 0 by {}
        lemma_table_of_unused(d);
        lemma_run(start_state(declared_table()), toks.skip(1));
        lemma_shape_keeps(declared_table(), fin.table);
    }
    Ok((keys, master_arg))
}

/// Of any command line: the arguments that were given are numbered from 1
/// up, no two alike, and looking one up by its number finds it again.
pub proof fn law_parsed_arguments(args: Seq<Seq<char>>)
    requires
        1 <= args.len() <= usize::MAX,
    ensures
        forall|i: int|
            0 <= i < parse_arguments(args).len() && (#[trigger] parse_arguments(args)[i]).used
                ==> 1 <= parse_arguments(args)[i].order,
        forall|i: int, j: int|
            0 <= i < parse_arguments(args).len() && 0 <= j < parse_arguments(args).len() && i != j
                && (#[trigger] parse_arguments(args)[i]).used && (#[trigger] parse_arguments(args)[j]).used
                ==> parse_arguments(args)[i].order != parse_arguments(args)[j].order,
        forall|i: int|
            0 <= i < parse_arguments(args).len() && (#[trigger] parse_arguments(args)[i]).used
                ==> first_with_order(parse_arguments(args), parse_arguments(args)[i].order)
                == Some(parse_arguments(args)[i].key),
{
    let d = declared_actions();
    assert forall|k: int| 0 <= k < d.len() implies !(#[trigger] d[k]).used && d[k].order == 0 by {}
    lemma_table_of_unused(d);
    lemma_run(start_state(declared_table()), args.skip(1));
    let r = parse_arguments(args);
    assert forall|i: int| 0 <= i < r.len() && (#[trigger] r[i]).used implies first_with_order(r, r[i].order) == Some(r[i].key) by {
        assert forall|j: int| 0 <= j < r.len() && j != i implies (#[trigger] r[j]).order != r[i].order by {}
        lemma_first_with_order(r, i);
    }
}

proof fn lemma_first_with_order(t: Seq<ActionView>, i: int)
    requires
        0 <= i < t.len(),
        forall|j: int| 0 <= j < t.len() && j != i ==> (#[trigger] t[j]).order != t[i].order,
    ensures
        first_with_order(t, t[i].order) == Some(t[i].key),
    decreases t.len(),
{
    if i > 0 {
        let q = t.drop_first();
        assert(q[i - 1] == t[i]);
        assert forall|j: int| 0 <= j < q.len() && j != i - 1 implies (#[trigger] q[j]).order != q[i - 1].order by {
            assert(q[j] == t[j + 1]);
        }
        assert(t[0].order != t[i].order);
        lemma_first_with_order(q, i - 1);
    }
}

/// The value of the entry with the key `k`.
pub open spec fn value_of(t: Seq<ActionView>, k: Seq<char>) -> Seq<char> {
    t[index_of(t, k)].value
}

/// The key that a callback reads from the table, if any.
pub open spec fn callback_key(c: Callback) -> Option<Seq<char>> {
    match c {
        Callback::Name => Some("name"@),
        Callback::Description => Some("description"@),
        Callback::Key => Some("key"@),
        _ => None,
    }
}

/// Whether the entry that the callback `c` reads is in the table.
pub open spec fn callback_ready(c: Callback, t: Seq<ActionView>) -> bool {
    callback_key(c) matches Some(k) ==> index_of(t, k) >= 0
}

/// What calling an argument with callback `c` against the table `t` gives.
pub open spec fn call_spec(c: Callback, t: Seq<ActionView>) -> DispatchView {
    match c {
        Callback::Init => DispatchView::Init,
        Callback::Version => DispatchView::Reply(Ok(VERSION@)),
        Callback::Get => DispatchView::Reply(Ok("3.0.1"@)),
        Callback::Remove => DispatchView::Remove,
        Callback::Name => DispatchView::Reply(Ok(value_of(t, "name"@))),
        Callback::Create => DispatchView::Create,
        Callback::Description => DispatchView::Reply(Ok(value_of(t, "description"@))),
        Callback::Key => DispatchView::Reply(Ok(value_of(t, "key"@))),
    }
}

fn version_callback(config: &ArgMap) -> (res: Result<String, String>)
    ensures
        res matches Ok(s) && s@ == VERSION@,
{
    Ok(String::from_str(VERSION))
}

fn get_callback(config: &ArgMap) -> (res: Result<String, String>)
    ensures
        res matches Ok(s) && s@ == "3.0.1"@,
{
    Ok(String::from_str("3.0.1"))
}

fn entry_value(config: &ArgMap, key: &str) -> (res: String)
    requires
        index_of(config@, key@) >= 0,
    ensures
        res@ == value_of(config@, key@),
{
    match config.get(key) {
        Some(a) => a.get_value(),
        None => String::new(),
    }
}

fn name_callback(config: &ArgMap) -> (res: Result<String, String>)
    requires
        index_of(config@, "name"@) >= 0,
    ensures
        res matches Ok(s) && s@ == value_of(config@, "name"@),
{
    Ok(entry_value(config, "name"))
}

fn description_callback(config: &ArgMap) -> (res: Result<String, String>)
    requires
        index_of(config@, "description"@) >= 0,
    ensures
        res matches Ok(s) && s@ == value_of(config@, "description"@),
{
    Ok(entry_value(config, "description"))
}

fn key_callback(config: &ArgMap) -> (res: Result<String, String>)
    requires
        index_of(config@, "key"@) >= 0,
    ensures
        res matches Ok(s) && s@ == value_of(config@, "key"@),
{
    Ok(entry_value(config, "key"))
}

/// The key of the first entry numbered `order`, if any.
pub open spec fn first_with_order(t: Seq<ActionView>, order: usize) -> Option<Seq<char>>
    decreases t.len(),
{
    if t.len() == 0 {
        None
    } else if t[0].order == order {
        Some(t[0].key)
    } else {
        first_with_order(t.drop_first(), order)
    }
}

/// The name of the argument numbered `order`, if one is.
pub fn get_arg_by_order(p_args: &ArgMap, order: usize) -> (res: Option<String>)
    ensures
        match first_with_order(p_args@, order) {
            Some(k) => res matches Some(s) && s@ == k,
            None => res is None,
        },
{
    let ghost t = p_args@;
    let n: usize = p_args.entries.len();
    let mut i: usize = 0;
    assert(t.skip(0) =~= t);
    while i < n
        invariant
            t == p_args@,
            n == t.len(),
            i <= n,
            first_with_order(t, order) == first_with_order(t.skip(i as int), order),
        decreases n - i,
    {
        let a: &ArgAction = &p_args.entries[i];
        assert(t.skip(i as int)[0] == a@);
        assert(t.skip(i as int).drop_first() =~= t.skip(i + 1));
        if a.get_order() == order {
            return Some(String::from_str(a.get_key()));
        }
        i = i + 1;
    }
    assert(t.skip(n as int) =~= Seq::<ActionView>::empty());
    None
}

/// One line of the help text per entry: a line break, the name, two tabs
/// and the description.
pub open spec fn doc_text(t: Seq<ActionView>) -> Seq<char>
    decreases t.len(),
{
    if t.len() == 0 {
        Seq::empty()
    } else {
        doc_text(t.drop_last()) + "\n"@ + t.last().key + "\t\t"@ + t.last().description
    }
}

/// The help text of the table.
#[allow(non_snake_case)]
pub fn createDoc(p_args: &ArgMap) -> (res: String)
    ensures
        res@ == doc_text(p_args@),
{
    let ghost t = p_args@;
    let n: usize = p_args.entries.len();
    let mut output = String::new();
    let mut i: usize = 0;
    while i < n
        invariant
            t == p_args@,
            n == t.len(),
            i <= n,
            output@ == doc_text(t.take(i as int)),
        decreases n - i,
    {
        let a: &ArgAction = &p_args.entries[i];
        output.append("\n");
        output.append(a.get_key());
        output.append("\t\t");
        output.append(a.get_desc());
        assert(t.take(i + 1).drop_last() =~= t.take(i as int));
        assert(t.take(i + 1).last() == a@);
        i = i + 1;
    }
    assert(t.take(n as int) =~= t);
    output
}

/// Calling `name`, `description` or `key` against a table whose keys are
/// distinct replies with the value of that table's entry of the same key,
/// whatever other entries the table holds.
pub proof fn law_value_callbacks_reply(t: Seq<ActionView>, i: int)
    requires
        keys_unique(t),
        0 <= i < t.len(),
    ensures
        t[i].key == "name"@ ==> call_spec(Callback::Name, t) == DispatchView::Reply(
            Ok::<Seq<char>, Seq<char>>(t[i].value),
        ),
        t[i].key == "description"@ ==> call_spec(Callback::Description, t) == DispatchView::Reply(
            Ok::<Seq<char>, Seq<char>>(t[i].value),
        ),
        t[i].key == "key"@ ==> call_spec(Callback::Key, t) == DispatchView::Reply(
            Ok::<Seq<char>, Seq<char>>(t[i].value),
        ),
{
    lemma_index_of(t, t[i].key);
    assert(has_key(t, t[i].key));
}

} // verus!
