use vstd::prelude::*;

verus! {

/// The abstract value of a list of subscription keys.
pub type KeyList = Seq<Seq<char>>;

/// The abstract value of a subscription document: method keys with their key lists, in order.
pub type DocView = Seq<(Seq<char>, KeyList)>;

/// The keys held by a vector of strings, as character sequences.
pub open spec fn keys_view(v: Seq<String>) -> KeyList {
    v.map_values(|s: String| s@)
}

/// `list` extended by every key of `keys` that it does not already hold, in input order.
pub open spec fn union_append(list: KeyList, keys: KeyList) -> KeyList
    decreases keys.len(),
{
    if keys.len() == 0 {
        list
    } else {
        let prefix = union_append(list, keys.drop_last());
        if prefix.contains(keys.last()) {
            prefix
        } else {
            prefix.push(keys.last())
        }
    }
}

/// `list` without the entries that occur in `keys`, order kept.
pub open spec fn remove_keys(list: KeyList, keys: KeyList) -> KeyList
    decreases list.len(),
{
    if list.len() == 0 {
        list
    } else {
        let prefix = remove_keys(list.drop_last(), keys);
        if keys.contains(list.last()) {
            prefix
        } else {
            prefix.push(list.last())
        }
    }
}

/// Position of the entry for method key `m` (the last such entry), or -1.
pub open spec fn method_index(d: DocView, m: Seq<char>) -> int
    decreases d.len(),
{
    if d.len() == 0 {
        -1
    } else if d.last().0 == m {
        d.len() - 1
    } else {
        method_index(d.drop_last(), m)
    }
}

/// The position that `method_index` gives is an entry for `m`, or -1 when none is.
pub proof fn lemma_method_index(d: DocView, m: Seq<char>)
    ensures
        -1 <= method_index(d, m) < d.len(),
        method_index(d, m) >= 0 ==> d[method_index(d, m)].0 == m,
        method_index(d, m) == -1 ==> forall|j: int| 0 <= j < d.len() ==> d[j].0 != m,
    decreases d.len(),
{
    if d.len() > 0 && d.last().0 != m {
        lemma_method_index(d.drop_last(), m);
        if method_index(d, m) == -1 {
            assert forall|j: int| 0 <= j < d.len() implies d[j].0 != m by {
                if j < d.len() - 1 {
                    assert(d.drop_last()[j] == d[j]);
                }
            }
        }
    }
}

/// The document after subscribing `keys` under method key `m`.
pub open spec fn doc_subscribe(d: DocView, m: Seq<char>, keys: KeyList) -> DocView {
    let i = method_index(d, m);
    if i >= 0 {
        d.update(i, (m, union_append(d[i].1, keys)))
    } else {
        d.push((m, union_append(Seq::empty(), keys)))
    }
}

/// The document after unsubscribing `keys` under method key `m`; no change if `m` is absent.
pub open spec fn doc_unsubscribe(d: DocView, m: Seq<char>, keys: KeyList) -> DocView {
    let i = method_index(d, m);
    if i >= 0 {
        d.update(i, (m, remove_keys(d[i].1, keys)))
    } else {
        d
    }
}

/// Method keys are distinct and no key list holds a key twice.
pub open spec fn doc_wf(d: DocView) -> bool {
    &&& forall|i: int, j: int| 0 <= i < j < d.len() ==> d[i].0 != d[j].0
    &&& forall|i: int| 0 <= i < d.len() ==> (#[trigger] d[i]).1.no_duplicates()
}

/// The subscriptions registered under one method key.
pub struct MethodSubscriptions {
    pub method: String,
    pub keys: Vec<String>,
}

/// A user's subscription document: method keys, each with an ordered set of keys.
pub struct SubscriptionDocument {
    pub entries: Vec<MethodSubscriptions>,
}

impl View for SubscriptionDocument {
    type V = DocView;

    open spec fn view(&self) -> DocView {
        self.entries@.map_values(|e: MethodSubscriptions| (e.method@, keys_view(e.keys@)))
    }
}

/// Whether `s` starts with `p`.
pub open spec fn has_prefix_spec(s: Seq<char>, p: Seq<char>) -> bool {
    p.len() <= s.len() && s.subrange(0, p.len() as int) == p
}

/// The prefix of a subscribe keyword.
pub open spec fn subscribe_word() -> Seq<char> {
    seq!['s', 'u', 'b', 's', 'c', 'r', 'i', 'b', 'e']
}

/// The prefix of an unsubscribe keyword.
pub open spec fn unsubscribe_word() -> Seq<char> {
    seq!['u', 'n', 's', 'u', 'b', 's', 'c', 'r', 'i', 'b', 'e']
}

/// What a subscription instruction asks for.
#[derive(PartialEq, Eq, Structural, Clone, Copy, Debug)]
pub enum MethodAction {
    Subscribe,
    Unsubscribe,
}

/// The action and method key that a keyword such as `subscribeaccountChange` names.
pub open spec fn parse_keyword_spec(w: Seq<char>) -> Option<(MethodAction, Seq<char>)> {
    if has_prefix_spec(w, subscribe_word()) {
        Some((MethodAction::Subscribe, w.subrange(subscribe_word().len() as int, w.len() as int)))
    } else if has_prefix_spec(w, unsubscribe_word()) {
        Some(
            (
                MethodAction::Unsubscribe,
                w.subrange(unsubscribe_word().len() as int, w.len() as int),
            ),
        )
    } else {
        None
    }
}

/// The document after applying a parsed instruction.
pub open spec fn doc_apply(d: DocView, a: MethodAction, m: Seq<char>, keys: KeyList) -> DocView {
    match a {
        MethodAction::Subscribe => doc_subscribe(d, m, keys),
        MethodAction::Unsubscribe => doc_unsubscribe(d, m, keys),
    }
}

fn has_prefix(s: &str, p: &str) -> (r: bool)
    ensures
        r == has_prefix_spec(s@, p@),
{
    let n = p.unicode_len();
    let len = s.unicode_len();
    if n > len {
        return false;
    }
    let mut i: usize = 0;
    while i < n
        invariant
            n == p@.len(),
            n <= len == s@.len(),
            i <= n,
            forall|j: int| 0 <= j < i ==> s@[j] == p@[j],
        decreases n - i,
    {
        if s.get_char(i) != p.get_char(i) {
            assert(s@.subrange(0, n as int)[i as int] != p@[i as int]);
            return false;
        }
        i = i + 1;
    }
    assert(s@.subrange(0, n as int) =~= p@);
    true
}

/// Splits a keyword of the form `subscribe<Name>` or `unsubscribe<Name>` into action and name.
pub fn parse_method_keyword(method: &str) -> (r: Option<(MethodAction, String)>)
    ensures
        match (r, parse_keyword_spec(method@)) {
            (Some((a, m)), Some((sa, sm))) => a == sa && m@ == sm,
            (None, None) => true,
            _ => false,
        },
{
    let sub = "subscribe";
    let unsub = "unsubscribe";
    proof {
        reveal_strlit("subscribe");
        reveal_strlit("unsubscribe");
        assert(sub@ =~= subscribe_word());
        assert(unsub@ =~= unsubscribe_word());
    }
    let len = method.unicode_len();
    if has_prefix(method, sub) {
        let rest = method.substring_char(9, len);
        Some((MethodAction::Subscribe, String::from_str(rest)))
    } else if has_prefix(method, unsub) {
        let rest = method.substring_char(11, len);
        Some((MethodAction::Unsubscribe, String::from_str(rest)))
    } else {
        None
    }
}

/// Whether `list` holds `key`.
pub fn contains_key(list: &Vec<String>, key: &String) -> (r: bool)
    ensures
        r == keys_view(list@).contains(key@),
{
    let mut i: usize = 0;
    while i < list.len()
        invariant
            i <= list@.len(),
            forall|j: int| 0 <= j < i ==> list@[j]@ != key@,
        decreases list@.len() - i,
    {
        if list[i] == *key {
            assert(keys_view(list@)[i as int] == key@);
            return true;
        }
        i = i + 1;
    }
    proof {
        if keys_view(list@).contains(key@) {
            let j = choose|j: int| 0 <= j < keys_view(list@).len() && keys_view(list@)[j] == key@;
            assert(list@[j]@ == key@);
        }
    }
    false
}

/// Appends to `list` each key of `keys` that it does not hold yet.
pub fn append_new_keys(list: &mut Vec<String>, keys: &Vec<String>)
    ensures
        keys_view(final(list)@) == union_append(keys_view(old(list)@), keys_view(keys@)),
{
    let ghost start = keys_view(list@);
    let mut j: usize = 0;
    while j < keys.len()
        invariant
            j <= keys@.len(),
            keys_view(list@) == union_append(start, keys_view(keys@).take(j as int)),
        decreases keys@.len() - j,
    {
        let ghost before = keys_view(list@);
        assert(keys_view(keys@).take(j + 1).drop_last() =~= keys_view(keys@).take(j as int));
        if !contains_key(list, &keys[j]) {
            list.push(keys[j].clone());
            assert(keys_view(list@) =~= before.push(keys@[j as int]@));
        }
        j = j + 1;
    }
    assert(keys_view(keys@).take(keys@.len() as int) =~= keys_view(keys@));
}

/// The entries of `list` that are not in `keys`, order kept.
pub fn without_keys(list: &Vec<String>, keys: &Vec<String>) -> (r: Vec<String>)
    ensures
        keys_view(r@) == remove_keys(keys_view(list@), keys_view(keys@)),
{
    let mut r: Vec<String> = Vec::new();
    let mut i: usize = 0;
    while i < list.len()
        invariant
            i <= list@.len(),
            keys_view(r@) == remove_keys(keys_view(list@).take(i as int), keys_view(keys@)),
        decreases list@.len() - i,
    {
        let ghost before = keys_view(r@);
        assert(keys_view(list@).take(i + 1).drop_last() =~= keys_view(list@).take(i as int));
        if !contains_key(keys, &list[i]) {
            r.push(list[i].clone());
            assert(keys_view(r@) =~= before.push(list@[i as int]@));
        }
        i = i + 1;
    }
    assert(keys_view(list@).take(list@.len() as int) =~= keys_view(list@));
    r
}

/// A copy of a list of keys.
pub fn copy_keys(v: &Vec<String>) -> (r: Vec<String>)
    ensures
        keys_view(r@) == keys_view(v@),
{
    let mut r: Vec<String> = Vec::new();
    let mut i: usize = 0;
    while i < v.len()
        invariant
            i <= v@.len(),
            keys_view(r@) == keys_view(v@).take(i as int),
        decreases v@.len() - i,
    {
        let ghost before = keys_view(r@);
        let c = v[i].clone();
        assert(c@ == v@[i as int]@);
        r.push(c);
        assert(keys_view(r@) =~= before.push(c@));
        assert(keys_view(v@).take(i + 1) =~= keys_view(v@).take(i as int).push(c@));
        i = i + 1;
    }
    assert(keys_view(v@).take(v@.len() as int) =~= keys_view(v@));
    r
}

impl SubscriptionDocument {
    /// A copy of this document.
    pub fn duplicate(&self) -> (r: SubscriptionDocument)
        ensures
            r@ == self@,
    {
        let mut entries: Vec<MethodSubscriptions> = Vec::new();
        let mut i: usize = 0;
        while i < self.entries.len()
            invariant
                i <= self@.len() == self.entries@.len(),
                (SubscriptionDocument { entries })@ == self@.take(i as int),
            decreases self.entries@.len() - i,
        {
            let ghost before = (SubscriptionDocument { entries })@;
            let e = &self.entries[i];
            let m = e.method.clone();
            let k = copy_keys(&e.keys);
            assert(m@ == self@[i as int].0);
            entries.push(MethodSubscriptions { method: m, keys: k });
            assert((SubscriptionDocument { entries })@ =~= before.push(self@[i as int]));
            assert(self@.take(i + 1) =~= self@.take(i as int).push(self@[i as int]));
            i = i + 1;
        }
        assert(self@.take(self@.len() as int) =~= self@);
        SubscriptionDocument { entries }
    }

    /// A document with no method keys.
    pub fn new() -> (r: SubscriptionDocument)
        ensures
            r@ == Seq::<(Seq<char>, KeyList)>::empty(),
    {
        let r = SubscriptionDocument { entries: Vec::new() };
        assert(r@ =~= Seq::<(Seq<char>, KeyList)>::empty());
        r
    }

    /// Position of the entry for `method`, searching from the end.
    pub fn find_method(&self, method: &String) -> (r: Option<usize>)
        ensures
            match r {
                Some(i) => i as int == method_index(self@, method@) && i < self@.len(),
                None => method_index(self@, method@) == -1,
            },
    {
        proof {
            lemma_method_index(self@, method@);
        }
        let mut i: usize = self.entries.len();
        assert(self@.take(i as int) =~= self@);
        while i > 0
            invariant
                i <= self@.len() == self.entries@.len(),
                method_index(self@, method@) == method_index(self@.take(i as int), method@),
            decreases i,
        {
            assert(self@.take(i as int).drop_last() =~= self@.take(i - 1));
            if self.entries[i - 1].method == *method {
                return Some(i - 1);
            }
            i = i - 1;
        }
        None
    }

    /// Adds `keys` under `method`, creating the method key when it is absent.
    pub fn subscribe(&mut self, method: &String, keys: &Vec<String>)
        ensures
            final(self)@ == doc_subscribe(old(self)@, method@, keys_view(keys@)),
    {
        let ghost d = self@;
        proof {
            lemma_method_index(d, method@);
        }
        match self.find_method(method) {
            Some(i) => {
                let mut list: Vec<String> = Vec::new();
                std::mem::swap(&mut list, &mut self.entries[i].keys);
                assert(keys_view(list@) == d[i as int].1);
                append_new_keys(&mut list, keys);
                self.entries[i].keys = list;
                assert(self@ =~= doc_subscribe(d, method@, keys_view(keys@)));
            },
            None => {
                let mut list: Vec<String> = Vec::new();
                assert(keys_view(list@) =~= Seq::<Seq<char>>::empty());
                append_new_keys(&mut list, keys);
                self.entries.push(MethodSubscriptions { method: method.clone(), keys: list });
                assert(self@ =~= doc_subscribe(d, method@, keys_view(keys@)));
            },
        }
    }

    /// Removes `keys` from the list under `method`; nothing happens when `method` is absent.
    pub fn unsubscribe(&mut self, method: &String, keys: &Vec<String>)
        ensures
            final(self)@ == doc_unsubscribe(old(self)@, method@, keys_view(keys@)),
    {
        let ghost d = self@;
        proof {
            lemma_method_index(d, method@);
        }
        match self.find_method(method) {
            Some(i) => {
                let list = without_keys(&self.entries[i].keys, keys);
                self.entries[i].keys = list;
                assert(self@ =~= doc_unsubscribe(d, method@, keys_view(keys@)));
            },
            None => {},
        }
    }
}

/// A subscription instruction: a keyword such as `subscribeaccountChange` and the keys it names.
pub struct SubscriptionPayload {
    pub method: String,
    pub keys: Option<Vec<String>>,
}

/// The key list that a payload carries, empty when it carries none.
pub open spec fn payload_keys(p: &SubscriptionPayload) -> KeyList {
    match p.keys {
        Some(k) => keys_view(k@),
        None => Seq::empty(),
    }
}

/// Whether `p` names a valid instruction.
pub open spec fn payload_valid(p: &SubscriptionPayload) -> bool {
    parse_keyword_spec(p.method@) is Some
}

/// The document after applying a valid payload; a payload without keys changes nothing.
pub open spec fn payload_result(d: DocView, p: &SubscriptionPayload) -> DocView {
    match (parse_keyword_spec(p.method@), p.keys) {
        (Some((a, m)), Some(k)) => doc_apply(d, a, m, keys_view(k@)),
        _ => d,
    }
}

/// Applies a subscription instruction to `doc`.
/// Returns false, leaving `doc` as it was, when the keyword starts with neither
/// `subscribe` nor `unsubscribe`.
pub fn apply_subscription(doc: &mut SubscriptionDocument, payload: &SubscriptionPayload) -> (r:
    bool)
    ensures
        r == payload_valid(payload),
        final(doc)@ == payload_result(old(doc)@, payload),
{
    match parse_method_keyword(payload.method.as_str()) {
        None => false,
        Some((action, method)) => {
            match &payload.keys {
                None => {},
                Some(keys) => {
                    match action {
                        MethodAction::Subscribe => doc.subscribe(&method, keys),
                        MethodAction::Unsubscribe => doc.unsubscribe(&method, keys),
                    }
                },
            }
            true
        },
    }
}

/// Subscribing keeps the existing list as a prefix, collapses repeated keys, and
/// holds exactly the keys of the list and of the input.
pub proof fn lemma_subscribe_is_union(list: KeyList, keys: KeyList)
    ensures
        list.no_duplicates() ==> union_append(list, keys).no_duplicates(),
        union_append(list, keys).len() >= list.len(),
        union_append(list, keys).take(list.len() as int) == list,
        forall|x: Seq<char>|
            #[trigger] union_append(list, keys).contains(x) <==> (list.contains(x) || keys.contains(
                x,
            )),
    decreases keys.len(),
{
    if keys.len() == 0 {
        assert(list.take(list.len() as int) =~= list);
    } else {
        let prefix = union_append(list, keys.drop_last());
        lemma_subscribe_is_union(list, keys.drop_last());
        let k = keys.last();
        assert forall|x: Seq<char>| keys.contains(x) <==> (keys.drop_last().contains(x) || x == k) by {
            if keys.contains(x) {
                let j = choose|j: int| 0 <= j < keys.len() && keys[j] == x;
                if j < keys.len() - 1 {
                    assert(keys.drop_last()[j] == x);
                }
            }
            if keys.drop_last().contains(x) {
                let j = choose|j: int| 0 <= j < keys.drop_last().len() && keys.drop_last()[j] == x;
                assert(keys[j] == x);
            }
            if x == k {
                assert(keys[keys.len() - 1] == x);
            }
        }
        if !prefix.contains(k) {
            let r = prefix.push(k);
            assert(r.take(list.len() as int) =~= prefix.take(list.len() as int));
            assert forall|x: Seq<char>| r.contains(x) <==> (prefix.contains(x) || x == k) by {
                if r.contains(x) {
                    let j = choose|j: int| 0 <= j < r.len() && r[j] == x;
                    if j < prefix.len() {
                        assert(prefix[j] == x);
                    }
                }
                if prefix.contains(x) {
                    let j = choose|j: int| 0 <= j < prefix.len() && prefix[j] == x;
                    assert(r[j] == x);
                }
                if x == k {
                    assert(r[prefix.len() as int] == x);
                }
            }
            if list.no_duplicates() {
                assert forall|i: int, j: int| 0 <= i < r.len() && 0 <= j < r.len() && i != j
                    implies r[i] != r[j] by {
                    if i == prefix.len() {
                        assert(prefix[j] == r[j]);
                    } else if j == prefix.len() {
                        assert(prefix[i] == r[i]);
                    }
                }
            }
        }
    }
}

/// Two subscriptions in a row give what one subscription of both key lists gives.
pub proof fn lemma_subscribe_twice(list: KeyList, a: KeyList, b: KeyList)
    ensures
        union_append(union_append(list, a), b) == union_append(list, a + b),
    decreases b.len(),
{
    if b.len() == 0 {
        assert(a + b =~= a);
    } else {
        lemma_subscribe_twice(list, a, b.drop_last());
        assert((a + b).drop_last() =~= a + b.drop_last());
        assert((a + b).last() == b.last());
    }
}

/// Unsubscribing keeps exactly the keys of the list that are not in the input,
/// in their order and without repeats.
pub proof fn lemma_unsubscribe_is_difference(list: KeyList, keys: KeyList)
    ensures
        list.no_duplicates() ==> remove_keys(list, keys).no_duplicates(),
        forall|x: Seq<char>|
            #[trigger] remove_keys(list, keys).contains(x) <==> (list.contains(x)
                && !keys.contains(x)),
    decreases list.len(),
{
    if list.len() > 0 {
        let rest = list.drop_last();
        let prefix = remove_keys(rest, keys);
        lemma_unsubscribe_is_difference(rest, keys);
        let k = list.last();
        assert forall|x: Seq<char>| list.contains(x) <==> (rest.contains(x) || x == k) by {
            if list.contains(x) {
                let j = choose|j: int| 0 <= j < list.len() && list[j] == x;
                if j < list.len() - 1 {
                    assert(rest[j] == x);
                }
            }
            if rest.contains(x) {
                let j = choose|j: int| 0 <= j < rest.len() && rest[j] == x;
                assert(list[j] == x);
            }
            if x == k {
                assert(list[list.len() - 1] == x);
            }
        }
        if !keys.contains(k) {
            let r = prefix.push(k);
            assert forall|x: Seq<char>| r.contains(x) <==> (prefix.contains(x) || x == k) by {
                if r.contains(x) {
                    let j = choose|j: int| 0 <= j < r.len() && r[j] == x;
                    if j < prefix.len() {
                        assert(prefix[j] == x);
                    }
                }
                if prefix.contains(x) {
                    let j = choose|j: int| 0 <= j < prefix.len() && prefix[j] == x;
                    assert(r[j] == x);
                }
                if x == k {
                    assert(r[prefix.len() as int] == x);
                }
            }
            if list.no_duplicates() {
                assert(rest.no_duplicates()) by {
                    assert forall|i: int, j: int|
                        0 <= i < rest.len() && 0 <= j < rest.len() && i != j implies rest[i]
                        != rest[j] by {
                        assert(rest[i] == list[i] && rest[j] == list[j]);
                    }
                }
                assert(!rest.contains(k)) by {
                    if rest.contains(k) {
                        let j = choose|j: int| 0 <= j < rest.len() && rest[j] == k;
                        assert(list[j] == list[list.len() - 1]);
                    }
                }
                assert forall|i: int, j: int| 0 <= i < r.len() && 0 <= j < r.len() && i != j
                    implies r[i] != r[j] by {
                    if i == prefix.len() {
                        assert(prefix[j] == r[j]);
                        assert(prefix.contains(r[j]));
                    } else if j == prefix.len() {
                        assert(prefix[i] == r[i]);
                        assert(prefix.contains(r[i]));
                    }
                }
            }
        } else if list.no_duplicates() {
            assert forall|i: int, j: int|
                0 <= i < rest.len() && 0 <= j < rest.len() && i != j implies rest[i] != rest[j] by {
                assert(rest[i] == list[i] && rest[j] == list[j]);
            }
        }
    }
}

/// Replacing the entry that `method_index` finds keeps it the entry for that key.
pub proof fn lemma_method_index_update(d: DocView, m: Seq<char>, x: KeyList)
    requires
        method_index(d, m) >= 0,
    ensures
        method_index(d.update(method_index(d, m), (m, x)), m) == method_index(d, m),
    decreases d.len(),
{
    let i = method_index(d, m);
    let u = d.update(i, (m, x));
    lemma_method_index(d, m);
    if d.last().0 != m {
        lemma_method_index_update(d.drop_last(), m, x);
        assert(u.drop_last() =~= d.drop_last().update(i, (m, x)));
    }
}

/// Subscribing `a` and then `b` under one method key gives what subscribing
/// `a + b` at once gives.
pub proof fn lemma_doc_subscribe_twice(d: DocView, m: Seq<char>, a: KeyList, b: KeyList)
    ensures
        doc_subscribe(doc_subscribe(d, m, a), m, b) == doc_subscribe(d, m, a + b),
{
    let i = method_index(d, m);
    lemma_method_index(d, m);
    if i >= 0 {
        lemma_method_index_update(d, m, union_append(d[i].1, a));
        lemma_subscribe_twice(d[i].1, a, b);
        assert(doc_subscribe(doc_subscribe(d, m, a), m, b) =~= doc_subscribe(d, m, a + b));
    } else {
        let e = d.push((m, union_append(Seq::empty(), a)));
        assert(e.drop_last() =~= d);
        lemma_subscribe_twice(Seq::empty(), a, b);
        assert(doc_subscribe(doc_subscribe(d, m, a), m, b) =~= doc_subscribe(d, m, a + b));
    }
}

/// Unsubscribing under a method key that the document does not hold changes nothing.
pub proof fn lemma_unsubscribe_absent(d: DocView, m: Seq<char>, keys: KeyList)
    requires
        forall|j: int| 0 <= j < d.len() ==> d[j].0 != m,
    ensures
        doc_unsubscribe(d, m, keys) == d,
{
    lemma_method_index(d, m);
}

/// Subscribing and unsubscribing keep method keys distinct and key lists free of repeats.
pub proof fn lemma_apply_preserves_wf(d: DocView, a: MethodAction, m: Seq<char>, keys: KeyList)
    requires
        doc_wf(d),
    ensures
        doc_wf(doc_apply(d, a, m, keys)),
{
    lemma_method_index(d, m);
    let i = method_index(d, m);
    let r = doc_apply(d, a, m, keys);
    if i >= 0 {
        lemma_subscribe_is_union(d[i].1, keys);
        lemma_unsubscribe_is_difference(d[i].1, keys);
        assert forall|p: int, q: int| 0 <= p < q < r.len() implies r[p].0 != r[q].0 by {
            assert(r[p].0 == d[p].0 && r[q].0 == d[q].0);
        }
        assert forall|p: int| 0 <= p < r.len() implies (#[trigger] r[p]).1.no_duplicates() by {
            if p != i {
                assert(r[p] == d[p]);
            }
        }
    } else if a == MethodAction::Subscribe {
        lemma_subscribe_is_union(Seq::empty(), keys);
        assert(Seq::<Seq<char>>::empty().no_duplicates());
        assert forall|p: int, q: int| 0 <= p < q < r.len() implies r[p].0 != r[q].0 by {
            assert(r[p] == d[p]);
        }
        assert forall|p: int| 0 <= p < r.len() implies (#[trigger] r[p]).1.no_duplicates() by {
            if p < d.len() {
                assert(r[p] == d[p]);
            }
        }
    }
}

/// Applying a payload keeps a well-formed document well formed.
pub proof fn lemma_payload_preserves_wf(d: DocView, p: &SubscriptionPayload)
    requires
        doc_wf(d),
    ensures
        doc_wf(payload_result(d, p)),
{
    match (parse_keyword_spec(p.method@), p.keys) {
        (Some((a, m)), Some(k)) => lemma_apply_preserves_wf(d, a, m, keys_view(k@)),
        _ => {},
    }
}

} // verus!
