//! JSON values.

use crate::order::views;
use crate::ordmap::OrdMap;
use crate::text::same_text;
use vstd::prelude::*;
use vstd::string::*;

verus! {

/// A JSON value.
#[derive(Debug)]
pub enum Json {
    Null,
    Bool(bool),
    Number(u64),
    Text(String),
    List(Vec<Json>),
    Object(Vec<Field>),
}

/// A field of a JSON object.
#[derive(Debug)]
pub struct Field {
    pub key: String,
    pub value: Json,
}

/// What a [`Json`] says.
pub enum JsonView {
    Null,
    Bool(bool),
    Number(nat),
    Text(Seq<char>),
    List(Seq<JsonView>),
    Object(Seq<(Seq<char>, JsonView)>),
}

impl Json {
    /// The value.
    pub open spec fn value(&self) -> JsonView
        decreases self, self.size() + 1,
    {
        match self {
            Json::Null => JsonView::Null,
            Json::Bool(b) => JsonView::Bool(*b),
            Json::Number(n) => JsonView::Number(*n as nat),
            Json::Text(s) => JsonView::Text(s@),
            Json::List(_) => JsonView::List(self.items(self.size())),
            Json::Object(_) => JsonView::Object(self.fields(self.size())),
        }
    }

    /// The number of items or fields.
    pub open spec fn size(&self) -> nat {
        match self {
            Json::List(v) => v@.len(),
            Json::Object(v) => v@.len(),
            _ => 0,
        }
    }

    /// The first `n` items of a list.
    pub open spec fn items(&self, n: nat) -> Seq<JsonView>
        decreases self, n,
    {
        match self {
            Json::List(v) => if n == 0 || n > v@.len() {
                seq![]
            } else {
                self.items((n - 1) as nat).push(v@[n - 1].value())
            },
            _ => seq![],
        }
    }

    /// The first `n` fields of an object.
    pub open spec fn fields(&self, n: nat) -> Seq<(Seq<char>, JsonView)>
        decreases self, n,
    {
        match self {
            Json::Object(v) => if n == 0 || n > v@.len() {
                seq![]
            } else {
                self.fields((n - 1) as nat).push((v@[n - 1].key@, v@[n - 1].value.value()))
            },
            _ => seq![],
        }
    }
}

impl View for Json {
    type V = JsonView;

    open spec fn view(&self) -> JsonView {
        self.value()
    }
}

proof fn lemma_items(j: Json, v: Vec<Json>, n: nat)
    requires
        j == Json::List(v),
        n <= v@.len(),
    ensures
        j.items(n) == views(v@).take(n as int),
    decreases n,
{
    if n > 0 {
        lemma_items(j, v, (n - 1) as nat);
        assert(views(v@).take(n as int) =~= views(v@).take(n - 1).push(v@[n - 1]@));
    } else {
        assert(views(v@).take(0) =~= Seq::<JsonView>::empty());
    }
}

proof fn lemma_fields(a: Json, b: Json, v: Vec<Field>, w: Vec<Field>, n: nat)
    requires
        a == Json::Object(v),
        b == Json::Object(w),
        n <= v@.len(),
        n <= w@.len(),
        v@.take(n as int) == w@.take(n as int),
    ensures
        a.fields(n) == b.fields(n),
{
    lemma_field_at(a, v, n);
    lemma_field_at(b, w, n);
    assert forall|k: int| 0 <= k < n implies #[trigger] a.fields(n)[k] == b.fields(n)[k] by {
        assert(v@.take(n as int)[k] == w@.take(n as int)[k]);
        assert(v@.take(n as int)[k] == v@[k]);
        assert(w@.take(n as int)[k] == w@[k]);
        assert(v@[k] == w@[k]);
        assert(b.fields(n)[k] == (w@[k].key@, w@[k].value@));
    }
    assert(a.fields(n) =~= b.fields(n));
}

/// An object without fields.
pub open spec fn no_fields() -> JsonView {
    JsonView::Object(seq![])
}

impl JsonView {
    /// The object with one more field; anything else becomes an object of that field alone.
    pub open spec fn with(self, key: Seq<char>, value: JsonView) -> JsonView {
        match self {
            JsonView::Object(fields) => JsonView::Object(fields.push((key, value))),
            _ => JsonView::Object(seq![(key, value)]),
        }
    }
}

/// A text, or null.
pub open spec fn text_or_null(t: Option<Seq<char>>) -> JsonView {
    match t {
        Some(s) => JsonView::Text(s),
        None => JsonView::Null,
    }
}

/// The texts as a list.
pub open spec fn text_list(texts: Seq<Seq<char>>) -> JsonView {
    JsonView::List(texts.map_values(|t: Seq<char>| JsonView::Text(t)))
}

/// Counts by name as an object.
pub open spec fn counts_object(entries: Seq<(Seq<char>, usize)>) -> JsonView {
    JsonView::Object(
        entries.map_values(|e: (Seq<char>, usize)| (e.0, JsonView::Number(e.1 as nat))),
    )
}

/// A number, or null.
pub open spec fn number_or_null(n: Option<u64>) -> JsonView {
    match n {
        Some(v) => JsonView::Number(v as nat),
        None => JsonView::Null,
    }
}

/// What an object holds under a key: the value of the first field with it.
pub open spec fn field_from(fields: Seq<(Seq<char>, JsonView)>, key: Seq<char>, i: int) -> Option<
    JsonView,
>
    decreases fields.len() - i,
{
    if i >= fields.len() {
        None
    } else if fields[i].0 == key {
        Some(fields[i].1)
    } else {
        field_from(fields, key, i + 1)
    }
}

/// What a value holds under a key; nothing where it is no object.
pub open spec fn field_of(j: JsonView, key: Seq<char>) -> Option<JsonView> {
    match j {
        JsonView::Object(fields) => field_from(fields, key, 0),
        _ => None,
    }
}

impl Json {
    /// An object without fields.
    pub fn object() -> (j: Json)
        ensures
            j@ == no_fields(),
    {
        Json::Object(Vec::new())
    }

    /// The object with one more field.
    pub fn with(self, key: &str, value: Json) -> (j: Json)
        ensures
            j@ == self@.with(key@, value@),
    {
        let field = Field { key: key.to_owned(), value };
        match self {
            Json::Object(v) => {
                let mut w = v;
                w.push(field);
                let j = Json::Object(w);
                proof {
                    assert(w@.take(v@.len() as int) =~= v@);
                    assert(v@.take(v@.len() as int) =~= v@);
                    lemma_fields(self, j, v, w, v@.len());
                }
                j
            },
            _ => {
                let mut w: Vec<Field> = Vec::new();
                w.push(field);
                let j = Json::Object(w);
                proof {
                    reveal_with_fuel(Json::fields, 2);
                    assert(j.fields(1) =~= seq![(key@, value@)]);
                }
                j
            },
        }
    }

    /// A list of values.
    pub fn list(items: Vec<Json>) -> (j: Json)
        ensures
            j@ == JsonView::List(views(items@)),
    {
        let j = Json::List(items);
        proof {
            lemma_items(j, items, items@.len());
            assert(views(items@).take(items@.len() as int) =~= views(items@));
        }
        j
    }

    /// A text.
    pub fn text(s: &str) -> (j: Json)
        ensures
            j@ == JsonView::Text(s@),
    {
        Json::Text(s.to_owned())
    }

    /// A text, or null.
    pub fn text_or_null(s: &Option<String>) -> (j: Json)
        ensures
            j@ == text_or_null(crate::errors::opt_text(*s)),
    {
        match s {
            Some(t) => Json::text(t.as_str()),
            None => Json::Null,
        }
    }

    /// A count.
    pub fn count(n: usize) -> (j: Json)
        ensures
            j@ == JsonView::Number(n as nat),
    {
        Json::Number(n as u64)
    }

    /// A list of texts.
    pub fn texts(list: &Vec<String>) -> (j: Json)
        ensures
            j@ == text_list(views(list@)),
    {
        let mut items: Vec<Json> = Vec::new();
        let mut i: usize = 0;
        while i < list.len()
            invariant
                i <= list.len(),
                items@.len() == i,
                forall|k: int| 0 <= k < i ==> #[trigger] items@[k]@ == JsonView::Text(list@[k]@),
            decreases list.len() - i,
        {
            items.push(Json::text(list[i].as_str()));
            i = i + 1;
        }
        let ghost texts = views(list@).map_values(|t: Seq<char>| JsonView::Text(t));
        assert(views(items@) =~= texts);
        Json::list(items)
    }

    /// Counts by name.
    pub fn counts(map: &OrdMap<String, usize>) -> (j: Json)
        ensures
            j@ == counts_object(map@),
    {
        let ghost mv = map@;
        let ghost all = mv.map_values(|e: (Seq<char>, usize)| (e.0, JsonView::Number(e.1 as nat)));
        let mut j = Json::object();
        let mut i: usize = 0;
        assert(all.take(0) =~= Seq::<(Seq<char>, JsonView)>::empty());
        while i < map.entries.len()
            invariant
                i <= map.entries.len(),
                mv == map@,
                all == mv.map_values(
                    |e: (Seq<char>, usize)| (e.0, JsonView::Number(e.1 as nat)),
                ),
                j@ == JsonView::Object(all.take(i as int)),
            decreases map.entries.len() - i,
        {
            let e = &map.entries[i];
            assert(mv[i as int] == (e.0@, e.1));
            j = j.with(e.0.as_str(), Json::count(e.1));
            assert(all.take(i + 1) =~= all.take(i as int).push(all[i as int]));
            i = i + 1;
        }
        assert(all.take(map.entries.len() as int) =~= all);
        j
    }

    /// A number, or null.
    pub fn number_or_null(n: Option<u64>) -> (j: Json)
        ensures
            j@ == number_or_null(n),
    {
        match n {
            Some(v) => Json::Number(v),
            None => Json::Null,
        }
    }

    /// What the value holds under a key.
    pub fn get(&self, key: &str) -> (v: Option<&Json>)
        ensures
            match v {
                Some(x) => field_of(self@, key@) == Some(x@),
                None => field_of(self@, key@) is None,
            },
    {
        match self {
            Json::Object(fields) => {
                proof {
                    lemma_field_at(*self, *fields, fields@.len());
                }
                let ghost fv = self.fields(fields@.len());
                let mut i: usize = 0;
                while i < fields.len()
                    invariant
                        i <= fields.len(),
                        fv.len() == fields@.len(),
                        self@ == JsonView::Object(fv),
                        forall|k: int|
                            0 <= k < fields@.len() ==> #[trigger] fv[k] == (
                                fields@[k].key@,
                                fields@[k].value@,
                            ),
                        field_of(self@, key@) == field_from(fv, key@, i as int),
                    decreases fields.len() - i,
                {
                    assert(fv[i as int] == (fields@[i as int].key@, fields@[i as int].value@));
                    if same_text(fields[i].key.as_str(), key) {
                        return Some(&fields[i].value);
                    }
                    i = i + 1;
                }
                None
            },
            _ => None,
        }
    }
}

proof fn lemma_field_at(j: Json, v: Vec<Field>, n: nat)
    requires
        j == Json::Object(v),
        n <= v@.len(),
    ensures
        j.fields(n).len() == n,
        forall|k: int| 0 <= k < n ==> #[trigger] j.fields(n)[k] == (v@[k].key@, v@[k].value@),
    decreases n,
{
    if n > 0 {
        lemma_field_at(j, v, (n - 1) as nat);
    }
}

/// A list says every item of it, and an object every field, in their order.
pub proof fn law_a_value_says_all_that_it_holds(j: Json)
    ensures
        j matches Json::List(v) ==> j@ == JsonView::List(Seq::new(v@.len(), |i: int| v@[i]@)),
        j matches Json::Object(v) ==> j@ == JsonView::Object(
            Seq::new(v@.len(), |i: int| (v@[i].key@, v@[i].value@)),
        ),
{
    match j {
        Json::List(v) => {
            lemma_all_items(j, v, v@.len());
            assert(j.items(v@.len()) =~= Seq::new(v@.len(), |i: int| v@[i]@));
        },
        Json::Object(v) => {
            lemma_all_fields(j, v, v@.len());
            assert(j.fields(v@.len()) =~= Seq::new(
                v@.len(),
                |i: int| (v@[i].key@, v@[i].value@),
            ));
        },
        _ => {},
    }
}

proof fn lemma_all_items(j: Json, v: Vec<Json>, n: nat)
    requires
        j == Json::List(v),
        n <= v@.len(),
    ensures
        j.items(n) =~= Seq::new(n, |i: int| v@[i]@),
    decreases n,
{
    if n > 0 {
        lemma_all_items(j, v, (n - 1) as nat);
    }
}

proof fn lemma_all_fields(j: Json, v: Vec<Field>, n: nat)
    requires
        j == Json::Object(v),
        n <= v@.len(),
    ensures
        j.fields(n) =~= Seq::new(n, |i: int| (v@[i].key@, v@[i].value@)),
    decreases n,
{
    if n > 0 {
        lemma_all_fields(j, v, (n - 1) as nat);
    }
}

/// What stands under a key is found wherever the field is, unless an earlier one has the key;
/// and nothing is found where no field has it.
pub proof fn law_a_field_is_found_under_its_key(
    fields: Seq<(Seq<char>, JsonView)>,
    key: Seq<char>,
    k: int,
)
    requires
        0 <= k <= fields.len(),
        forall|i: int| 0 <= i < k ==> (#[trigger] fields[i]).0 != key,
    ensures
        k == fields.len() ==> field_of(JsonView::Object(fields), key) is None,
        k < fields.len() && fields[k].0 == key ==> field_of(JsonView::Object(fields), key) == Some(
            fields[k].1,
        ),
{
    lemma_field_from(fields, key, 0, k);
}

proof fn lemma_field_from(fields: Seq<(Seq<char>, JsonView)>, key: Seq<char>, i: int, k: int)
    requires
        0 <= i <= k <= fields.len(),
        forall|j: int| 0 <= j < k ==> (#[trigger] fields[j]).0 != key,
    ensures
        field_from(fields, key, i) == field_from(fields, key, k),
    decreases k - i,
{
    if i < k {
        assert(fields[i].0 != key);
        lemma_field_from(fields, key, i + 1, k);
    }
}

} // verus!
