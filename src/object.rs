use vstd::prelude::*;

verus! {

/// The mathematical model of an [`Object`].
pub enum Value {
    Char(i8),
    Int(i32),
    Long(i64),
    Str(Option<Seq<char>>),
    Buffer(Option<Seq<u8>>),
    Pointer(Seq<char>),
    Time(u64),
    HashTable(Map<Key, Value>),
    Info(Option<Seq<char>>, Option<Seq<char>>),
    InfoList(Option<Seq<char>>, Seq<Map<Key, Value>>),
    Array(Seq<Value>),
}

/// The model of a value that can be a table key: one of the kinds that hold no other
/// objects, whose values have a stable hash.
pub enum Key {
    Char(i8),
    Int(i32),
    Long(i64),
    Str(Option<Seq<char>>),
    Buffer(Option<Seq<u8>>),
    Pointer(Seq<char>),
    Time(u64),
    Info(Option<Seq<char>>, Option<Seq<char>>),
}

/// The key that a value stands for, if it can be a key.
pub open spec fn key_of(v: Value) -> Option<Key> {
    match v {
        Value::Char(c) => Some(Key::Char(c)),
        Value::Int(n) => Some(Key::Int(n)),
        Value::Long(n) => Some(Key::Long(n)),
        Value::Str(t) => Some(Key::Str(t)),
        Value::Buffer(b) => Some(Key::Buffer(b)),
        Value::Pointer(p) => Some(Key::Pointer(p)),
        Value::Time(t) => Some(Key::Time(t)),
        Value::Info(n, w) => Some(Key::Info(n, w)),
        _ => None,
    }
}

/// Two values that stand for the same key are the same value.
pub proof fn lemma_key_of_injective(a: Value, b: Value)
    requires
        key_of(a) is Some,
        key_of(a) == key_of(b),
    ensures
        a == b,
{
}

/// The kinds of object, each named on the wire by a three-byte tag.
#[derive(Debug, Clone, Copy, PartialEq, Eq)]
pub enum Kind {
    Char,
    Int,
    Long,
    Str,
    Buffer,
    Pointer,
    Time,
    HashTable,
    Info,
    InfoList,
    Array,
}

pub open spec fn tag_spec(k: Kind) -> Seq<u8> {
    match k {
        Kind::Char => seq![99u8, 104u8, 114u8],
        Kind::Int => seq![105u8, 110u8, 116u8],
        Kind::Long => seq![108u8, 111u8, 110u8],
        Kind::Str => seq![115u8, 116u8, 114u8],
        Kind::Buffer => seq![98u8, 117u8, 102u8],
        Kind::Pointer => seq![112u8, 116u8, 114u8],
        Kind::Time => seq![116u8, 105u8, 109u8],
        Kind::HashTable => seq![104u8, 116u8, 98u8],
        Kind::Info => seq![105u8, 110u8, 102u8],
        Kind::InfoList => seq![105u8, 110u8, 108u8],
        Kind::Array => seq![97u8, 114u8, 114u8],
    }
}

/// The kind that a three-byte tag names, if any.
pub open spec fn kind_of_tag(t: Seq<u8>) -> Option<Kind> {
    if t == tag_spec(Kind::Char) {
        Some(Kind::Char)
    } else if t == tag_spec(Kind::Int) {
        Some(Kind::Int)
    } else if t == tag_spec(Kind::Long) {
        Some(Kind::Long)
    } else if t == tag_spec(Kind::Str) {
        Some(Kind::Str)
    } else if t == tag_spec(Kind::Buffer) {
        Some(Kind::Buffer)
    } else if t == tag_spec(Kind::Pointer) {
        Some(Kind::Pointer)
    } else if t == tag_spec(Kind::Time) {
        Some(Kind::Time)
    } else if t == tag_spec(Kind::HashTable) {
        Some(Kind::HashTable)
    } else if t == tag_spec(Kind::Info) {
        Some(Kind::Info)
    } else if t == tag_spec(Kind::InfoList) {
        Some(Kind::InfoList)
    } else if t == tag_spec(Kind::Array) {
        Some(Kind::Array)
    } else {
        None
    }
}

impl Kind {
    /// The tag that announces a value of this kind.
    pub fn tag(&self) -> (r: [u8; 3])
        ensures
            r@ == tag_spec(*self),
    {
        let r = match self {
            Kind::Char => [99u8, 104u8, 114u8],
            Kind::Int => [105u8, 110u8, 116u8],
            Kind::Long => [108u8, 111u8, 110u8],
            Kind::Str => [115u8, 116u8, 114u8],
            Kind::Buffer => [98u8, 117u8, 102u8],
            Kind::Pointer => [112u8, 116u8, 114u8],
            Kind::Time => [116u8, 105u8, 109u8],
            Kind::HashTable => [104u8, 116u8, 98u8],
            Kind::Info => [105u8, 110u8, 102u8],
            Kind::InfoList => [105u8, 110u8, 108u8],
            Kind::Array => [97u8, 114u8, 114u8],
        };
        assert(r@ =~= tag_spec(*self));
        r
    }

    /// The kind that `tag` names, if any.
    pub fn from_tag(tag: [u8; 3]) -> (r: Option<Kind>)
        ensures
            r == kind_of_tag(tag@),
    {
        let ghost t = tag@;
        let (a, b, c) = (tag[0], tag[1], tag[2]);
        assert(t =~= seq![a, b, c]);
        if a == 99 && b == 104 && c == 114 {
            Some(Kind::Char)
        } else if a == 105 && b == 110 && c == 116 {
            Some(Kind::Int)
        } else if a == 108 && b == 111 && c == 110 {
            Some(Kind::Long)
        } else if a == 115 && b == 116 && c == 114 {
            Some(Kind::Str)
        } else if a == 98 && b == 117 && c == 102 {
            Some(Kind::Buffer)
        } else if a == 112 && b == 116 && c == 114 {
            Some(Kind::Pointer)
        } else if a == 116 && b == 105 && c == 109 {
            Some(Kind::Time)
        } else if a == 104 && b == 116 && c == 98 {
            Some(Kind::HashTable)
        } else if a == 105 && b == 110 && c == 102 {
            Some(Kind::Info)
        } else if a == 105 && b == 110 && c == 108 {
            Some(Kind::InfoList)
        } else if a == 97 && b == 114 && c == 114 {
            Some(Kind::Array)
        } else {
            None
        }
    }
}

/// A string that may be null.
#[derive(Debug, PartialEq, Eq, Hash)]
pub struct Str(Option<String>);

impl View for Str {
    type V = Option<Seq<char>>;

    closed spec fn view(&self) -> Option<Seq<char>> {
        match self.0 {
            Some(s) => Some(s@),
            None => None,
        }
    }
}

impl Str {
    pub fn new(s: Option<String>) -> (r: Str)
        ensures
            r@ == (match s {
                Some(t) => Some(t@),
                None => None,
            }),
    {
        Str(s)
    }

    pub fn null() -> (r: Str)
        ensures
            r@ is None,
    {
        Str(None)
    }

    pub fn from_text(s: &str) -> (r: Str)
        ensures
            r@ == Some(s@),
    {
        Str(Some(s.to_owned()))
    }

    /// The text, or `None` for a null string.
    pub fn as_ref(&self) -> (r: Option<&str>)
        ensures
            r is Some <==> self@ is Some,
            r is Some ==> Some(r->0@) == self@,
    {
        match &self.0 {
            Some(s) => Some(s.as_str()),
            None => None,
        }
    }

    /// The text, with a null string read as empty.
    pub fn as_str(&self) -> (r: &str)
        ensures
            r@ == str_text(self@),
    {
        match &self.0 {
            Some(s) => s.as_str(),
            None => {
                proof {
                    reveal_strlit("");
                }
                ""
            },
        }
    }

    /// The text, with a null string read as empty.
    pub fn into_string(self) -> (r: String)
        ensures
            r@ == str_text(self@),
    {
        match self.0 {
            Some(s) => s,
            None => String::new(),
        }
    }

    pub fn is_null(&self) -> (r: bool)
        ensures
            r == self@ is None,
    {
        self.0.is_none()
    }

    pub fn same(&self, other: &Str) -> (r: bool)
        ensures
            r == (self@ == other@),
    {
        match &self.0 {
            Some(a) => match &other.0 {
                Some(b) => a.eq(b),
                None => false,
            },
            None => other.0.is_none(),
        }
    }
}

/// The text of a possibly null string, a null one read as empty.
pub open spec fn str_text(s: Option<Seq<char>>) -> Seq<char> {
    match s {
        Some(t) => t,
        None => Seq::empty(),
    }
}

/// Raw bytes that may be null.
#[derive(Debug, PartialEq, Eq, Hash)]
pub struct Buffer(pub Option<Vec<u8>>);

impl View for Buffer {
    type V = Option<Seq<u8>>;

    open spec fn view(&self) -> Option<Seq<u8>> {
        match self.0 {
            Some(b) => Some(b@),
            None => None,
        }
    }
}

/// An address, kept as the hexadecimal text that the peer sent.
#[derive(Debug, PartialEq, Eq, Hash)]
pub struct Pointer(pub String);

impl View for Pointer {
    type V = Seq<char>;

    open spec fn view(&self) -> Seq<char> {
        self.0@
    }
}

impl Pointer {
    pub fn as_str(&self) -> (r: &str)
        ensures
            r@ == self@,
    {
        self.0.as_str()
    }
}

/// A Unix timestamp in seconds.
#[derive(Debug, Clone, Copy, PartialEq, Eq, Hash)]
pub struct Time(pub u64);

/// A name and a value, both strings.
#[derive(Debug, PartialEq, Eq, Hash)]
pub struct Info {
    pub name: Str,
    pub value: Str,
}

impl Info {
    /// The name, a null one read as empty.
    pub fn name(&self) -> (r: &str)
        ensures
            r@ == str_text(self.name@),
    {
        self.name.as_str()
    }

    /// The value, a null one read as empty.
    pub fn value(&self) -> (r: &str)
        ensures
            r@ == str_text(self.value@),
    {
        self.value.as_str()
    }
}

/// A mapping between objects. Its keys are of the kinds that hold no other objects, and
/// no two are equal; the order in which the entries are kept means nothing.
#[derive(Debug, Eq)]
pub struct HashTable(Vec<(Object, Object)>);

/// Entries whose keys can be keys, no two of them equal.
pub open spec fn entries_wf(s: Seq<(Object, Object)>) -> bool {
    &&& forall|i: int| 0 <= i < s.len() ==> (key_of(#[trigger] s[i].0@) is Some)
    &&& forall|i: int, j: int| 0 <= i < j < s.len() ==> s[i].0@ != s[j].0@
}

/// A named sequence of tables, each mapping field names to objects.
#[derive(Debug, PartialEq, Eq)]
pub struct InfoList {
    pub name: Str,
    pub items: Vec<HashTable>,
}

/// A value of the relay's object format.
#[derive(Debug, PartialEq, Eq)]
pub enum Object {
    Char(i8),
    Int(i32),
    Long(i64),
    Str(Str),
    Buffer(Buffer),
    Pointer(Pointer),
    Time(Time),
    HashTable(HashTable),
    Info(Info),
    InfoList(InfoList),
    Array(Vec<Object>),
}

pub open spec fn value_of(o: Object) -> Value
    decreases o,
{
    match o {
        Object::Char(c) => Value::Char(c),
        Object::Int(n) => Value::Int(n),
        Object::Long(n) => Value::Long(n),
        Object::Str(s) => Value::Str(s@),
        Object::Buffer(b) => Value::Buffer(b@),
        Object::Pointer(p) => Value::Pointer(p@),
        Object::Time(t) => Value::Time(t.0),
        Object::HashTable(t) => Value::HashTable(table_view(t)),
        Object::Info(i) => Value::Info(i.name@, i.value@),
        Object::InfoList(l) => Value::InfoList(l.name@, tables_of(l.items@)),
        Object::Array(a) => Value::Array(values_of(a@)),
    }
}

pub open spec fn values_of(s: Seq<Object>) -> Seq<Value>
    decreases s,
{
    if s.len() == 0 {
        Seq::empty()
    } else {
        values_of(s.drop_last()).push(value_of(s.last()))
    }
}

/// The mapping that a table holds.
pub closed spec fn table_view(t: HashTable) -> Map<Key, Value>
    decreases t,
{
    entries_map(t.0@)
}

/// The mapping that entries stand for: each entry whose key can be a key maps that key
/// to its value, a later entry overriding an earlier one.
pub open spec fn entries_map(s: Seq<(Object, Object)>) -> Map<Key, Value>
    decreases s,
{
    if s.len() == 0 {
        Map::empty()
    } else {
        match key_of(value_of(s.last().0)) {
            Some(k) => entries_map(s.drop_last()).insert(k, value_of(s.last().1)),
            None => entries_map(s.drop_last()),
        }
    }
}

pub open spec fn tables_of(s: Seq<HashTable>) -> Seq<Map<Key, Value>>
    decreases s,
{
    if s.len() == 0 {
        Seq::empty()
    } else {
        tables_of(s.drop_last()).push(table_view(s.last()))
    }
}

impl View for Object {
    type V = Value;

    open spec fn view(&self) -> Value {
        value_of(*self)
    }
}

impl View for HashTable {
    type V = Map<Key, Value>;

    open spec fn view(&self) -> Map<Key, Value> {
        table_view(*self)
    }
}

impl View for Info {
    type V = (Option<Seq<char>>, Option<Seq<char>>);

    open spec fn view(&self) -> (Option<Seq<char>>, Option<Seq<char>>) {
        (self.name@, self.value@)
    }
}

impl View for InfoList {
    type V = (Option<Seq<char>>, Seq<Map<Key, Value>>);

    open spec fn view(&self) -> (Option<Seq<char>>, Seq<Map<Key, Value>>) {
        (self.name@, tables_of(self.items@))
    }
}

/// The model of a sequence of objects is the sequence of their models.
pub proof fn lemma_values_of(s: Seq<Object>)
    ensures
        values_of(s).len() == s.len(),
        forall|i: int| 0 <= i < s.len() ==> #[trigger] values_of(s)[i] == s[i]@,
    decreases s.len(),
{
    if s.len() > 0 {
        lemma_values_of(s.drop_last());
    }
}

proof fn lemma_entries_wf_drop_last(s: Seq<(Object, Object)>)
    requires
        entries_wf(s),
        s.len() > 0,
    ensures
        entries_wf(s.drop_last()),
{
    let d = s.drop_last();
    assert forall|i: int| 0 <= i < d.len() implies (key_of(#[trigger] d[i].0@) is Some) by {
        assert(d[i] == s[i]);
    }
    assert forall|i: int, j: int| 0 <= i < j < d.len() implies d[i].0@ != d[j].0@ by {
        assert(d[i] == s[i] && d[j] == s[j]);
    }
}

/// Replacing the value of an entry, under a key equal to its own, maps that key to the
/// new value and changes nothing else.
pub proof fn lemma_entries_map_update(s: Seq<(Object, Object)>, j: int, e: (Object, Object))
    requires
        entries_wf(s),
        0 <= j < s.len(),
        e.0@ == s[j].0@,
    ensures
        entries_wf(s.update(j, e)),
        entries_map(s.update(j, e)) == entries_map(s).insert(key_of(e.0@)->0, e.1@),
    decreases s.len(),
{
    let u = s.update(j, e);
    assert forall|i: int| 0 <= i < u.len() implies #[trigger] u[i].0@ == s[i].0@ by {}
    assert(entries_wf(u)) by {
        assert forall|i: int| 0 <= i < u.len() implies (key_of(#[trigger] u[i].0@) is Some) by {
            assert(u[i].0@ == s[i].0@);
        }
        assert forall|a: int, b: int| 0 <= a < b < u.len() implies u[a].0@ != u[b].0@ by {
            assert(u[a].0@ == s[a].0@ && u[b].0@ == s[b].0@);
        }
    }
    let k = key_of(e.0@)->0;
    let d = s.drop_last();
    if j == s.len() - 1 {
        assert(u.drop_last() =~= d);
        assert(entries_map(u) =~= entries_map(s).insert(k, e.1@));
    } else {
        lemma_entries_wf_drop_last(s);
        assert(u.drop_last() =~= d.update(j, e));
        lemma_entries_map_update(d, j, e);
        let last = s.last();
        assert(key_of(s[s.len() - 1].0@) is Some);
        let kl = key_of(last.0@)->0;
        if k == kl {
            lemma_key_of_injective(e.0@, last.0@);
            assert(s[j].0@ != s[s.len() - 1].0@);
        }
        assert(entries_map(u) =~= entries_map(s).insert(k, e.1@));
    }
}

/// Entries with keys that can be keys, no two equal, stand for a mapping with one key
/// per entry, each key mapped to its entry's value, and no other key.
pub proof fn lemma_entries_map(s: Seq<(Object, Object)>)
    requires
        entries_wf(s),
    ensures
        entries_map(s).dom().finite(),
        entries_map(s).dom().len() == s.len(),
        forall|i: int|
            0 <= i < s.len() ==> entries_map(s).contains_key(key_of(#[trigger] s[i].0@)->0)
                && entries_map(s)[key_of(s[i].0@)->0] == s[i].1@,
        forall|k: Key|
            #[trigger] entries_map(s).contains_key(k) ==> exists|i: int|
                0 <= i < s.len() && key_of(#[trigger] s[i].0@) == Some(k),
    decreases s.len(),
{
    if s.len() > 0 {
        let d = s.drop_last();
        lemma_entries_wf_drop_last(s);
        lemma_entries_map(d);
        let last = s.last();
        assert(key_of(s[s.len() - 1].0@) is Some);
        let kl = key_of(last.0@)->0;
        let m = entries_map(d);
        assert(entries_map(s) == m.insert(kl, last.1@));
        if m.contains_key(kl) {
            let i = choose|i: int| 0 <= i < d.len() && key_of(#[trigger] d[i].0@) == Some(kl);
            assert(d[i] == s[i]);
            lemma_key_of_injective(s[i].0@, last.0@);
            assert(false);
        }
        assert(m.insert(kl, last.1@).dom() == m.dom().insert(kl));
        assert forall|i: int|
            0 <= i < s.len() implies entries_map(s).contains_key(key_of(#[trigger] s[i].0@)->0)
            && entries_map(s)[key_of(s[i].0@)->0] == s[i].1@ by {
            if i < s.len() - 1 {
                assert(d[i] == s[i]);
                if key_of(s[i].0@)->0 == kl {
                    lemma_key_of_injective(s[i].0@, last.0@);
                }
            }
        }
        assert forall|k: Key| #[trigger] entries_map(s).contains_key(k) implies exists|i: int|
            0 <= i < s.len() && key_of(#[trigger] s[i].0@) == Some(k) by {
            if k == kl {
                assert(key_of(s[s.len() - 1].0@) == Some(k));
            } else {
                let i = choose|i: int| 0 <= i < d.len() && key_of(#[trigger] d[i].0@) == Some(k);
                assert(d[i] == s[i]);
            }
        }
    }
}

pub proof fn lemma_tables_of(s: Seq<HashTable>)
    ensures
        tables_of(s).len() == s.len(),
        forall|i: int| 0 <= i < s.len() ==> #[trigger] tables_of(s)[i] == s[i]@,
    decreases s.len(),
{
    if s.len() > 0 {
        lemma_tables_of(s.drop_last());
    }
}

fn bytes_same(a: &Vec<u8>, b: &Vec<u8>) -> (r: bool)
    ensures
        r == (a@ == b@),
{
    if a.len() != b.len() {
        return false;
    }
    let mut i: usize = 0;
    while i < a.len()
        invariant
            a@.len() == b@.len(),
            i <= a@.len(),
            forall|j: int| 0 <= j < i ==> a@[j] == b@[j],
        decreases a@.len() - i,
    {
        if a[i] != b[i] {
            return false;
        }
        i = i + 1;
    }
    assert(a@ =~= b@);
    true
}

fn objects_same(a: &Vec<Object>, b: &Vec<Object>) -> (r: bool)
    ensures
        r == (values_of(a@) == values_of(b@)),
    decreases a,
{
    proof {
        lemma_values_of(a@);
        lemma_values_of(b@);
    }
    if a.len() != b.len() {
        return false;
    }
    let mut i: usize = 0;
    while i < a.len()
        invariant
            a@.len() == b@.len(),
            i <= a@.len(),
            values_of(a@).len() == a@.len(),
            values_of(b@).len() == b@.len(),
            forall|j: int| 0 <= j < a@.len() ==> #[trigger] values_of(a@)[j] == a@[j]@,
            forall|j: int| 0 <= j < b@.len() ==> #[trigger] values_of(b@)[j] == b@[j]@,
            forall|j: int| 0 <= j < i ==> values_of(a@)[j] == values_of(b@)[j],
        decreases a@.len() - i,
    {
        assert(decreases_to!(a => a[i as int]));
        if !a[i].same(&b[i]) {
            assert(values_of(a@)[i as int] != values_of(b@)[i as int]);
            return false;
        }
        i = i + 1;
    }
    assert(values_of(a@) =~= values_of(b@));
    true
}

impl HashTable {
    #[verifier::type_invariant]
    spec fn inv(&self) -> bool {
        entries_wf(self.0@)
    }

    /// A table with no entries.
    pub fn new() -> (r: HashTable)
        ensures
            r@ == Map::<Key, Value>::empty(),
    {
        HashTable(Vec::new())
    }

    /// A table of entries whose keys can be keys, no two equal.
    pub(crate) fn from_entries(entries: Vec<(Object, Object)>) -> (r: HashTable)
        requires
            entries_wf(entries@),
        ensures
            r@ == entries_map(entries@),
    {
        HashTable(entries)
    }

    /// The number of entries.
    pub fn len(&self) -> (r: usize)
        ensures
            r == self@.dom().len(),
    {
        proof {
            use_type_invariant(self);
            lemma_entries_map(self.0@);
        }
        self.0.len()
    }

    /// Where the entry with key `key` stands.
    fn find(&self, key: &Object) -> (r: Option<usize>)
        requires
            key_of(key@) is Some,
        ensures
            match r {
                Some(i) => i < self.0@.len() && self.0@[i as int].0@ == key@,
                None => forall|i: int| 0 <= i < self.0@.len() ==> #[trigger] self.0@[i].0@ != key@,
            },
    {
        let mut i: usize = 0;
        while i < self.0.len()
            invariant
                key_of(key@) is Some,
                i <= self.0@.len(),
                forall|j: int| 0 <= j < i ==> #[trigger] self.0@[j].0@ != key@,
            decreases self.0@.len() - i,
        {
            if key.same_key(&self.0[i].0) {
                return Some(i);
            }
            i = i + 1;
        }
        None
    }

    /// The value under `key`, if the table holds that key.
    pub fn get(&self, key: &Object) -> (r: Option<&Object>)
        ensures
            match r {
                Some(v) => key_of(key@) is Some && self@.contains_key(key_of(key@)->0) && v@
                    == self@[key_of(key@)->0],
                None => key_of(key@) is None || !self@.contains_key(key_of(key@)->0),
            },
    {
        proof {
            use_type_invariant(self);
            lemma_entries_map(self.0@);
        }
        if !key.is_key() {
            return None;
        }
        match self.find(key) {
            Some(i) => Some(&self.0[i].1),
            None => {
                proof {
                    let k = key_of(key@)->0;
                    if self@.contains_key(k) {
                        let i = choose|i: int|
                            0 <= i < self.0@.len() && key_of(#[trigger] self.0@[i].0@) == Some(k);
                        lemma_key_of_injective(key@, self.0@[i].0@);
                    }
                }
                None
            },
        }
    }

    /// Whether two tables hold the same mapping, whatever the order of their entries.
    pub fn same(&self, other: &HashTable) -> (r: bool)
        ensures
            r == (self@ == other@),
        decreases self,
    {
        proof {
            use_type_invariant(self);
            use_type_invariant(other);
            lemma_entries_map(self.0@);
            lemma_entries_map(other.0@);
        }
        if self.0.len() != other.0.len() {
            return false;
        }
        let mut i: usize = 0;
        while i < self.0.len()
            invariant
                i <= self.0@.len(),
                self.0@.len() == other.0@.len(),
                entries_wf(self.0@),
                entries_wf(other.0@),
                forall|j: int|
                    0 <= j < i ==> other@.contains_key(key_of(#[trigger] self.0@[j].0@)->0)
                        && other@[key_of(self.0@[j].0@)->0] == self.0@[j].1@,
            decreases self.0@.len() - i,
        {
            proof {
                lemma_entries_map(self.0@);
                lemma_entries_map(other.0@);
            }
            assert(decreases_to!(self => self.0));
            assert(decreases_to!(self.0 => self.0[i as int]));
            assert(decreases_to!(self.0[i as int] => self.0[i as int].1));
            let ghost k = key_of(self.0@[i as int].0@)->0;
            match other.get(&self.0[i].0) {
                None => {
                    return false;
                },
                Some(v) => {
                    if !self.0[i].1.same(v) {
                        return false;
                    }
                },
            }
            i = i + 1;
        }
        proof {
            assert forall|k: Key| #[trigger] self@.dom().contains(k) implies other@.dom().contains(
                k,
            ) && other@[k] == self@[k] by {
                let j = choose|j: int|
                    0 <= j < self.0@.len() && key_of(#[trigger] self.0@[j].0@) == Some(k);
            }
            vstd::set_lib::lemma_subset_equality(self@.dom(), other@.dom());
            assert(self@ =~= other@);
        }
        true
    }
}

impl PartialEq for HashTable {
    fn eq(&self, o: &HashTable) -> (r: bool) {
        self.same(o)
    }
}

impl vstd::std_specs::cmp::PartialEqSpecImpl for HashTable {
    open spec fn obeys_eq_spec() -> bool {
        true
    }

    open spec fn eq_spec(&self, o: &HashTable) -> bool {
        self@ == o@
    }
}

fn tables_same(a: &Vec<HashTable>, b: &Vec<HashTable>) -> (r: bool)
    ensures
        r == (tables_of(a@) == tables_of(b@)),
    decreases a,
{
    proof {
        lemma_tables_of(a@);
        lemma_tables_of(b@);
    }
    if a.len() != b.len() {
        return false;
    }
    let mut i: usize = 0;
    while i < a.len()
        invariant
            a@.len() == b@.len(),
            i <= a@.len(),
            tables_of(a@).len() == a@.len(),
            tables_of(b@).len() == b@.len(),
            forall|j: int| 0 <= j < a@.len() ==> #[trigger] tables_of(a@)[j] == a@[j]@,
            forall|j: int| 0 <= j < b@.len() ==> #[trigger] tables_of(b@)[j] == b@[j]@,
            forall|j: int| 0 <= j < i ==> tables_of(a@)[j] == tables_of(b@)[j],
        decreases a@.len() - i,
    {
        assert(decreases_to!(a => a[i as int]));
        if !a[i].same(&b[i]) {
            assert(tables_of(a@)[i as int] != tables_of(b@)[i as int]);
            return false;
        }
        i = i + 1;
    }
    assert(tables_of(a@) =~= tables_of(b@));
    true
}

impl Object {
    /// Whether two objects hold the same value.
    pub fn same(&self, other: &Object) -> (r: bool)
        ensures
            r == (self@ == other@),
        decreases self,
    {
        match (self, other) {
            (Object::Char(a), Object::Char(b)) => *a == *b,
            (Object::Int(a), Object::Int(b)) => *a == *b,
            (Object::Long(a), Object::Long(b)) => *a == *b,
            (Object::Str(a), Object::Str(b)) => a.same(b),
            (Object::Buffer(a), Object::Buffer(b)) => match (&a.0, &b.0) {
                (Some(x), Some(y)) => bytes_same(x, y),
                (None, None) => true,
                _ => false,
            },
            (Object::Pointer(a), Object::Pointer(b)) => a.0.eq(&b.0),
            (Object::Time(a), Object::Time(b)) => a.0 == b.0,
            (Object::HashTable(a), Object::HashTable(b)) => a.same(b),
            (Object::Info(a), Object::Info(b)) => a.name.same(&b.name) && a.value.same(&b.value),
            (Object::InfoList(a), Object::InfoList(b)) => a.name.same(&b.name) && tables_same(
                &a.items,
                &b.items,
            ),
            (Object::Array(a), Object::Array(b)) => objects_same(a, b),
            _ => false,
        }
    }
}

impl Object {
    /// Whether the object can be a table key.
    pub fn is_key(&self) -> (r: bool)
        ensures
            r == key_of(self@) is Some,
    {
        match self {
            Object::HashTable(_) | Object::InfoList(_) | Object::Array(_) => false,
            _ => true,
        }
    }

    /// Whether a key and another object hold the same value.
    pub fn same_key(&self, other: &Object) -> (r: bool)
        requires
            key_of(self@) is Some,
        ensures
            r == (self@ == other@),
    {
        match (self, other) {
            (Object::Char(a), Object::Char(b)) => *a == *b,
            (Object::Int(a), Object::Int(b)) => *a == *b,
            (Object::Long(a), Object::Long(b)) => *a == *b,
            (Object::Str(a), Object::Str(b)) => a.same(b),
            (Object::Buffer(a), Object::Buffer(b)) => match (&a.0, &b.0) {
                (Some(x), Some(y)) => bytes_same(x, y),
                (None, None) => true,
                _ => false,
            },
            (Object::Pointer(a), Object::Pointer(b)) => a.0.eq(&b.0),
            (Object::Time(a), Object::Time(b)) => a.0 == b.0,
            (Object::Info(a), Object::Info(b)) => a.name.same(&b.name) && a.value.same(&b.value),
            _ => false,
        }
    }
}

} // verus!
