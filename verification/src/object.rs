//! The part of a PDF object graph that the watermarking logic reads and writes.
//!
//! A `PdfObject` mirrors one `lopdf::Object`: dictionaries keep their entries in
//! order, arrays their items; a real is held as lopdf's own value, which only
//! lopdf's reals can become.
use vstd::prelude::*;

verus! {

/// An object number and generation, as lopdf writes it.
pub type ObjectId = (u32, u16);

/// The entries of a dictionary, in the order in which lopdf keeps them.
pub type Entries = Vec<(Vec<u8>, PdfObject)>;

#[verifier::external_type_specification]
#[verifier::external_body]
pub struct ExObject(lopdf::Object);

/// A real number, as lopdf holds it. Its field is private to the crate, and
/// only a lopdf real becomes one (`from_object`).
pub struct PdfReal {
    pub(crate) value: lopdf::Object,
}

impl PdfReal {
    /// The real that the lopdf object is, or `None` where it is no real.
    #[verifier::external_body]
    pub fn from_object(o: lopdf::Object) -> Option<PdfReal> {
        match o {
            lopdf::Object::Real(_) => Some(PdfReal { value: o }),
            _ => None,
        }
    }

    /// The lopdf real.
    #[verifier::external_body]
    pub fn to_object(&self) -> lopdf::Object {
        self.value.clone()
    }
}

/// A stream: its dictionary, its raw bytes and the two flags lopdf keeps with it.
pub struct PdfStream {
    pub dict: Entries,
    pub content: Vec<u8>,
    pub allows_compression: bool,
    pub start_position: Option<usize>,
}

/// One PDF object.
pub enum PdfObject {
    Null,
    Boolean(bool),
    Integer(i64),
    Real(PdfReal),
    Name(Vec<u8>),
    /// A string's bytes, and whether it is written in hexadecimal.
    String(Vec<u8>, bool),
    Array(Vec<PdfObject>),
    Dictionary(Entries),
    Stream(PdfStream),
    Reference(u32, u16),
}

/// No key occurs twice among the entries.
pub open spec fn keys_distinct(d: Seq<(Vec<u8>, PdfObject)>) -> bool {
    forall|i: int, j: int|
        0 <= i < d.len() && 0 <= j < d.len() && i != j ==> (#[trigger] d[i]).0@ != (#[trigger] d[j]).0@
}

impl PdfObject {
    /// Every dictionary inside the object, at any depth, has distinct keys,
    /// as every dictionary that lopdf holds does.
    pub open spec fn wf(self) -> bool
        decreases self,
    {
        match self {
            PdfObject::Array(v) => forall|i: int| 0 <= i < v@.len() ==> (#[trigger] v@[i]).wf(),
            PdfObject::Dictionary(d) => {
                &&& keys_distinct(d@)
                &&& forall|i: int| 0 <= i < d@.len() ==> (#[trigger] d@[i]).1.wf()
            },
            PdfObject::Stream(s) => {
                &&& keys_distinct(s.dict@)
                &&& forall|i: int| 0 <= i < s.dict@.len() ==> (#[trigger] s.dict@[i]).1.wf()
            },
            _ => true,
        }
    }
}

/// Entries that are all well formed and carry distinct keys.
pub open spec fn entries_wf(d: Seq<(Vec<u8>, PdfObject)>) -> bool {
    &&& keys_distinct(d)
    &&& forall|i: int| 0 <= i < d.len() ==> (#[trigger] d[i]).1.wf()
}

/// The key occurs among the entries.
pub open spec fn has_key(d: Seq<(Vec<u8>, PdfObject)>, key: Seq<u8>) -> bool {
    exists|i: int| 0 <= i < d.len() && (#[trigger] d[i]).0@ == key
}

/// Where the key stands among the entries (meaningful when `has_key`).
pub open spec fn key_index(d: Seq<(Vec<u8>, PdfObject)>, key: Seq<u8>) -> int {
    choose|i: int| 0 <= i < d.len() && (#[trigger] d[i]).0@ == key
}

/// The value stored under the key, as `Dictionary::get` finds it.
pub open spec fn dict_get(d: Seq<(Vec<u8>, PdfObject)>, key: Seq<u8>) -> Option<PdfObject> {
    if has_key(d, key) {
        Some(d[key_index(d, key)].1)
    } else {
        None
    }
}

/// `new` is what `Dictionary::set(key, value)` makes of `old`: an existing key
/// keeps its place and takes the new value; a new key is appended.
pub open spec fn set_entry_of(
    new: Seq<(Vec<u8>, PdfObject)>,
    old: Seq<(Vec<u8>, PdfObject)>,
    key: Seq<u8>,
    value: PdfObject,
) -> bool {
    if has_key(old, key) {
        new == old.update(key_index(old, key), (old[key_index(old, key)].0, value))
    } else {
        &&& new.len() == old.len() + 1
        &&& new.subrange(0, old.len() as int) == old
        &&& new[old.len() as int].0@ == key
        &&& new[old.len() as int].1 == value
    }
}

/// The object is a reference, and to which object.
pub open spec fn reference_of(o: Option<PdfObject>) -> Option<ObjectId> {
    match o {
        Some(PdfObject::Reference(number, generation)) => Some((number, generation)),
        _ => None,
    }
}

/// How many references lopdf follows before it gives up.
pub open spec fn deref_limit() -> nat {
    128
}

/// Follows references from `obj` (found under `id`) the way `Document::get_object`
/// does, `steps` of them having been followed already: the object reached and the
/// id it is stored under, or `None` where a reference dangles or the limit is hit.
pub open spec fn follow(
    objects: Map<ObjectId, PdfObject>,
    id: ObjectId,
    obj: PdfObject,
    steps: nat,
) -> Option<(ObjectId, PdfObject)>
    decreases deref_limit() - steps,
{
    match obj {
        PdfObject::Reference(number, generation) => {
            let next = (number, generation);
            if !objects.dom().contains(next) || steps >= deref_limit() {
                None
            } else {
                follow(objects, next, objects[next], steps + 1)
            }
        },
        _ => Some((id, obj)),
    }
}

/// The object that `Document::get_object(id)` yields, with the id under which it
/// is stored (the one `Document::get_object_mut(id)` changes).
pub open spec fn resolve(objects: Map<ObjectId, PdfObject>, id: ObjectId) -> Option<
    (ObjectId, PdfObject),
> {
    if objects.dom().contains(id) {
        follow(objects, id, objects[id], 0)
    } else {
        None
    }
}

/// The entries of the dictionary that `Document::get_dictionary(id)` yields.
pub open spec fn resolve_dict(objects: Map<ObjectId, PdfObject>, id: ObjectId) -> Option<
    Seq<(Vec<u8>, PdfObject)>,
> {
    match resolve(objects, id) {
        Some((_, PdfObject::Dictionary(d))) => Some(d@),
        _ => None,
    }
}

/// `after` is `before` with `key` set to `value` in the dictionary that `id`
/// resolves to (as `Document::get_dictionary_mut(id)` and `Dictionary::set` do),
/// and nothing else changed.
pub open spec fn entry_set(
    before: Map<ObjectId, PdfObject>,
    after: Map<ObjectId, PdfObject>,
    id: ObjectId,
    key: Seq<u8>,
    value: PdfObject,
) -> bool {
    &&& resolve_dict(before, id) is Some
    &&& after.dom() == before.dom()
    &&& forall|k: ObjectId|
        k != resolve(before, id).unwrap().0 && before.dom().contains(k) ==> after[k] == before[k]
    &&& after[resolve(before, id).unwrap().0] matches PdfObject::Dictionary(e) && set_entry_of(
        e@,
        resolve_dict(before, id).unwrap(),
        key,
        value,
    )
}

/// What `follow` yields is an object that is no reference, stored under the id
/// that comes with it.
pub proof fn lemma_follow_result(objects: Map<ObjectId, PdfObject>, id: ObjectId, steps: nat)
    requires
        objects.dom().contains(id),
        follow(objects, id, objects[id], steps) is Some,
    ensures
        ({
            let (t, o) = follow(objects, id, objects[id], steps).unwrap();
            &&& objects.dom().contains(t)
            &&& o == objects[t]
            &&& !(o is Reference)
        }),
    decreases deref_limit() - steps,
{
    if let PdfObject::Reference(number, generation) = objects[id] {
        lemma_follow_result(objects, (number, generation), steps + 1);
    }
}

/// A chain of references that ends at `t` still ends there, at the new object,
/// when only the object under `t` changes, to another that is no reference.
pub proof fn lemma_follow_stable(
    before: Map<ObjectId, PdfObject>,
    after: Map<ObjectId, PdfObject>,
    id: ObjectId,
    steps: nat,
    t: ObjectId,
)
    requires
        before.dom().contains(id),
        follow(before, id, before[id], steps) matches Some((end, _)) && end == t,
        after.dom() == before.dom(),
        forall|k: ObjectId| k != t && before.dom().contains(k) ==> after[k] == before[k],
        !(after[t] is Reference),
    ensures
        follow(after, id, after[id], steps) == Some((t, after[t])),
    decreases deref_limit() - steps,
{
    lemma_follow_result(before, id, steps);
    if id != t {
        if let PdfObject::Reference(number, generation) = before[id] {
            lemma_follow_stable(before, after, (number, generation), steps + 1, t);
        }
    }
}

/// A chain of references is not touched by a change to an object it does not
/// reach, where that object was no reference.
pub proof fn lemma_follow_unchanged(
    before: Map<ObjectId, PdfObject>,
    after: Map<ObjectId, PdfObject>,
    id: ObjectId,
    steps: nat,
    k: ObjectId,
)
    requires
        before.dom().contains(id),
        follow(before, id, before[id], steps) matches Some((end, _)) && end != k,
        after.dom() == before.dom(),
        forall|j: ObjectId| j != k && before.dom().contains(j) ==> after[j] == before[j],
        !(before[k] is Reference),
    ensures
        follow(after, id, after[id], steps) == follow(before, id, before[id], steps),
    decreases deref_limit() - steps,
{
    lemma_follow_result(before, id, steps);
    if let PdfObject::Reference(number, generation) = before[id] {
        assert(id != k);
        lemma_follow_unchanged(before, after, (number, generation), steps + 1, k);
    } else {
        assert(id != k);
    }
}

/// Storing an object under an id that was not used yet changes no chain of
/// references that resolved before.
pub proof fn lemma_follow_insert_fresh(
    before: Map<ObjectId, PdfObject>,
    id: ObjectId,
    steps: nat,
    fresh: ObjectId,
    value: PdfObject,
)
    requires
        before.dom().contains(id),
        !before.dom().contains(fresh),
        follow(before, id, before[id], steps) is Some,
    ensures
        follow(before.insert(fresh, value), id, before.insert(fresh, value)[id], steps) == follow(
            before,
            id,
            before[id],
            steps,
        ),
    decreases deref_limit() - steps,
{
    let after = before.insert(fresh, value);
    assert(after[id] == before[id]);
    if let PdfObject::Reference(number, generation) = before[id] {
        lemma_follow_insert_fresh(before, (number, generation), steps + 1, fresh, value);
    }
}

/// After `entry_set`, the id resolves to the same place, now holding the changed
/// dictionary.
pub proof fn lemma_resolve_after_set(
    before: Map<ObjectId, PdfObject>,
    after: Map<ObjectId, PdfObject>,
    id: ObjectId,
    key: Seq<u8>,
    value: PdfObject,
)
    requires
        entry_set(before, after, id, key, value),
    ensures
        resolve(after, id) == Some((resolve(before, id).unwrap().0, after[resolve(before, id).unwrap().0])),
        resolve_dict(after, id) matches Some(d) && after[resolve(before, id).unwrap().0] matches PdfObject::Dictionary(e) && d == e@,
{
    let t = resolve(before, id).unwrap().0;
    lemma_follow_stable(before, after, id, 0, t);
}

/// After `Dictionary::set`, the key holds the new value, keys stay distinct, and
/// every other key keeps its value.
pub proof fn lemma_set_entry_get(
    new: Seq<(Vec<u8>, PdfObject)>,
    old: Seq<(Vec<u8>, PdfObject)>,
    key: Seq<u8>,
    value: PdfObject,
)
    requires
        keys_distinct(old),
        set_entry_of(new, old, key, value),
    ensures
        keys_distinct(new),
        dict_get(new, key) == Some(value),
        forall|other: Seq<u8>| other != key ==> #[trigger] dict_get(new, other) == dict_get(old, other),
{
    if has_key(old, key) {
        let k: int = key_index(old, key);
        assert(new[k].0@ == key);
        assert forall|i: int, j: int|
            0 <= i < new.len() && 0 <= j < new.len() && i != j implies (#[trigger] new[i]).0@
            != (#[trigger] new[j]).0@ by {
            assert(new[i].0 == old[i].0);
            assert(new[j].0 == old[j].0);
        }
        assert(has_key(new, key));
        let kn: int = key_index(new, key);
        if kn != k {
            assert(new[kn].0@ != new[k].0@);
        }
        assert forall|other: Seq<u8>| other != key implies #[trigger] dict_get(new, other) == dict_get(
            old,
            other,
        ) by {
            if has_key(old, other) {
                let i: int = key_index(old, other);
                assert(new[i].0@ == other);
                assert(has_key(new, other));
                let j: int = key_index(new, other);
                if i != j {
                    assert(new[i].0@ != new[j].0@);
                }
            }
            if has_key(new, other) {
                let j: int = key_index(new, other);
                assert(old[j].0@ == other);
            }
        }
    } else {
        let n: int = old.len() as int;
        assert(new[n].0@ == key);
        assert forall|i: int| 0 <= i < n implies #[trigger] new[i] == old[i] by {
            assert(new.subrange(0, n)[i] == new[i]);
        }
        assert forall|i: int, j: int|
            0 <= i < new.len() && 0 <= j < new.len() && i != j implies (#[trigger] new[i]).0@
            != (#[trigger] new[j]).0@ by {
            if i == n {
                assert(old[j].0@ != key);
            } else if j == n {
                assert(old[i].0@ != key);
            }
        }
        assert(has_key(new, key));
        let kn: int = key_index(new, key);
        if kn != n {
            assert(new[kn].0@ != new[n].0@);
        }
        assert forall|other: Seq<u8>| other != key implies #[trigger] dict_get(new, other) == dict_get(
            old,
            other,
        ) by {
            if has_key(old, other) {
                let i: int = key_index(old, other);
                assert(new[i].0@ == other);
                assert(has_key(new, other));
                let j: int = key_index(new, other);
                if i != j {
                    assert(new[i].0@ != new[j].0@);
                }
            }
            if has_key(new, other) {
                let j: int = key_index(new, other);
                if j == n {
                    assert(false);
                }
                assert(old[j].0@ == other);
            }
        }
    }
}

/// Every object number in use is at most `max`, so that the numbers above it are
/// free (what lopdf's `max_id` is meant to be).
pub open spec fn ids_at_most(objects: Map<ObjectId, PdfObject>, max: u32) -> bool {
    forall|id: ObjectId| #[trigger] objects.dom().contains(id) ==> id.0 <= max
}

/// Storing an object under the number after `max`, which was unused, keeps the
/// numbers in use at most the new `max`.
pub proof fn lemma_ids_after_add(before: Map<ObjectId, PdfObject>, max: u32, value: PdfObject)
    requires
        ids_at_most(before, max),
        max < u32::MAX,
    ensures
        !before.dom().contains(((max + 1) as u32, 0u16)),
        ids_at_most(before.insert(((max + 1) as u32, 0u16), value), (max + 1) as u32),
{
    let fresh = ((max + 1) as u32, 0u16);
    if before.dom().contains(fresh) {
        assert(fresh.0 <= max);
    }
}

/// `after` keeps what `before` stored, but for the entry under `key` in the
/// dictionaries stored under the ids in `changed`: every object is still stored,
/// what is no dictionary is unchanged, what is a dictionary still is one, and in
/// every dictionary stored under an id outside `changed` the entry under `key` is
/// unchanged.
pub open spec fn kept_but(
    before: Map<ObjectId, PdfObject>,
    after: Map<ObjectId, PdfObject>,
    key: Seq<u8>,
    changed: Set<ObjectId>,
) -> bool {
    &&& forall|id: ObjectId| #[trigger] before.dom().contains(id) ==> after.dom().contains(id)
    &&& forall|id: ObjectId|
        before.dom().contains(id) && !(before[id] is Dictionary) ==> #[trigger] after[id] == before[id]
    &&& forall|id: ObjectId|
        before.dom().contains(id) && before[id] is Dictionary ==> #[trigger] after[id] is Dictionary
    &&& forall|id: ObjectId|
        before.dom().contains(id) && !changed.contains(id) && before[id] is Dictionary ==> dict_get(
            (#[trigger] after[id])->Dictionary_0@,
            key,
        ) == dict_get(before[id]->Dictionary_0@, key)
}

/// Keeping through two changes keeps through both, but for the ids changed in
/// either.
pub proof fn lemma_kept_trans(
    a: Map<ObjectId, PdfObject>,
    b: Map<ObjectId, PdfObject>,
    c: Map<ObjectId, PdfObject>,
    key: Seq<u8>,
    first: Set<ObjectId>,
    second: Set<ObjectId>,
)
    requires
        kept_but(a, b, key, first),
        kept_but(b, c, key, second),
    ensures
        kept_but(a, c, key, first.union(second)),
{
    assert forall|id: ObjectId| #[trigger] a.dom().contains(id) implies c.dom().contains(id) by {
        assert(b.dom().contains(id));
    }
    assert forall|id: ObjectId| a.dom().contains(id) && !(a[id] is Dictionary) implies #[trigger] c[id]
        == a[id] by {
        assert(b.dom().contains(id));
        assert(b[id] == a[id]);
    }
    assert forall|id: ObjectId| a.dom().contains(id) && a[id] is Dictionary implies #[trigger] c[id] is Dictionary by {
        assert(b.dom().contains(id));
        assert(b[id] is Dictionary);
    }
    assert forall|id: ObjectId|
        a.dom().contains(id) && !first.union(second).contains(id) && a[id] is Dictionary implies dict_get(
        (#[trigger] c[id])->Dictionary_0@,
        key,
    ) == dict_get(a[id]->Dictionary_0@, key) by {
        assert(b.dom().contains(id));
        assert(b[id] is Dictionary);
        assert(dict_get(b[id]->Dictionary_0@, key) == dict_get(a[id]->Dictionary_0@, key));
    }
}

/// Where everything is kept, a chain of references that reached a dictionary
/// reaches one stored under the same id.
pub proof fn lemma_kept_follow(
    before: Map<ObjectId, PdfObject>,
    after: Map<ObjectId, PdfObject>,
    key: Seq<u8>,
    changed: Set<ObjectId>,
    id: ObjectId,
    steps: nat,
)
    requires
        kept_but(before, after, key, changed),
        before.dom().contains(id),
        follow(before, id, before[id], steps) matches Some((_, o)) && o is Dictionary,
    ensures
        follow(after, id, after[id], steps) matches Some((t, o)) && o is Dictionary && t == follow(
            before,
            id,
            before[id],
            steps,
        ).unwrap().0 && o == after[t],
    decreases deref_limit() - steps,
{
    assert(after.dom().contains(id));
    if let PdfObject::Reference(number, generation) = before[id] {
        assert(after[id] == before[id]);
        lemma_kept_follow(before, after, key, changed, (number, generation), steps + 1);
    } else {
        assert(before[id] is Dictionary);
        assert(after[id] is Dictionary);
    }
}

/// Where everything is kept, what resolved to a dictionary resolves to one stored
/// under the same id.
pub proof fn lemma_kept_resolve(
    before: Map<ObjectId, PdfObject>,
    after: Map<ObjectId, PdfObject>,
    key: Seq<u8>,
    changed: Set<ObjectId>,
    q: ObjectId,
)
    requires
        kept_but(before, after, key, changed),
        resolve_dict(before, q) is Some,
    ensures
        resolve_dict(after, q) is Some,
        resolve(after, q).unwrap().0 == resolve(before, q).unwrap().0,
        after[resolve(after, q).unwrap().0] == resolve(after, q).unwrap().1,
{
    lemma_kept_follow(before, after, key, changed, q, 0);
}

/// `after` keeps what `before` stored, but for the entries named in `writes`,
/// each by the id a dictionary is stored under and a key: every object is still
/// stored, what is no dictionary is unchanged, what is a dictionary still is one,
/// and every entry not named keeps its value.
pub open spec fn kept_except(
    before: Map<ObjectId, PdfObject>,
    after: Map<ObjectId, PdfObject>,
    writes: Set<(ObjectId, Seq<u8>)>,
) -> bool {
    &&& forall|id: ObjectId| #[trigger] before.dom().contains(id) ==> after.dom().contains(id)
    &&& forall|id: ObjectId|
        before.dom().contains(id) && !(before[id] is Dictionary) ==> #[trigger] after[id] == before[id]
    &&& forall|id: ObjectId|
        before.dom().contains(id) && before[id] is Dictionary ==> #[trigger] after[id] is Dictionary
    &&& forall|id: ObjectId, key: Seq<u8>|
        before.dom().contains(id) && before[id] is Dictionary && !writes.contains((id, key))
            ==> #[trigger] dict_get(after[id]->Dictionary_0@, key) == dict_get(
            before[id]->Dictionary_0@,
            key,
        )
}

/// Storing an object under an unused id keeps every entry.
pub proof fn lemma_except_insert(
    before: Map<ObjectId, PdfObject>,
    fresh: ObjectId,
    value: PdfObject,
    writes: Set<(ObjectId, Seq<u8>)>,
)
    requires
        !before.dom().contains(fresh),
    ensures
        kept_except(before, before.insert(fresh, value), writes),
{
    let after = before.insert(fresh, value);
    assert forall|id: ObjectId| before.dom().contains(id) implies #[trigger] after[id] == before[id] by {}
}

/// Setting an entry keeps every other entry.
pub proof fn lemma_except_set(
    before: Map<ObjectId, PdfObject>,
    after: Map<ObjectId, PdfObject>,
    id: ObjectId,
    key: Seq<u8>,
    value: PdfObject,
)
    requires
        entry_set(before, after, id, key, value),
        keys_distinct(resolve_dict(before, id).unwrap()),
    ensures
        kept_except(before, after, set![(resolve(before, id).unwrap().0, key)]),
{
    let t = resolve(before, id).unwrap().0;
    lemma_follow_result(before, id, 0);
    let d = resolve_dict(before, id).unwrap();
    if let PdfObject::Dictionary(e) = after[t] {
        lemma_set_entry_get(e@, d, key, value);
    }
    assert forall|k: ObjectId, other: Seq<u8>|
        before.dom().contains(k) && before[k] is Dictionary && !set![(t, key)].contains((k, other))
            implies #[trigger] dict_get(after[k]->Dictionary_0@, other) == dict_get(
        before[k]->Dictionary_0@,
        other,
    ) by {
        if k == t {
            assert(other != key);
        }
    }
}

/// Keeping through two changes keeps through both, but for what either wrote.
pub proof fn lemma_except_trans(
    a: Map<ObjectId, PdfObject>,
    b: Map<ObjectId, PdfObject>,
    c: Map<ObjectId, PdfObject>,
    first: Set<(ObjectId, Seq<u8>)>,
    second: Set<(ObjectId, Seq<u8>)>,
)
    requires
        kept_except(a, b, first),
        kept_except(b, c, second),
    ensures
        kept_except(a, c, first.union(second)),
{
    assert forall|id: ObjectId| #[trigger] a.dom().contains(id) implies c.dom().contains(id) by {
        assert(b.dom().contains(id));
    }
    assert forall|id: ObjectId| a.dom().contains(id) && !(a[id] is Dictionary) implies #[trigger] c[id]
        == a[id] by {
        assert(b.dom().contains(id));
        assert(b[id] == a[id]);
    }
    assert forall|id: ObjectId| a.dom().contains(id) && a[id] is Dictionary implies #[trigger] c[id] is Dictionary by {
        assert(b.dom().contains(id));
        assert(b[id] is Dictionary);
    }
    assert forall|id: ObjectId, key: Seq<u8>|
        a.dom().contains(id) && a[id] is Dictionary && !first.union(second).contains((id, key))
            implies #[trigger] dict_get(c[id]->Dictionary_0@, key) == dict_get(a[id]->Dictionary_0@, key) by {
        assert(b.dom().contains(id));
        assert(b[id] is Dictionary);
        assert(dict_get(b[id]->Dictionary_0@, key) == dict_get(a[id]->Dictionary_0@, key));
        assert(dict_get(c[id]->Dictionary_0@, key) == dict_get(b[id]->Dictionary_0@, key));
    }
}

/// Keeping all but some entries keeps all but more.
pub proof fn lemma_except_weaken(
    before: Map<ObjectId, PdfObject>,
    after: Map<ObjectId, PdfObject>,
    writes: Set<(ObjectId, Seq<u8>)>,
    more: Set<(ObjectId, Seq<u8>)>,
)
    requires
        kept_except(before, after, writes),
        writes.subset_of(more),
    ensures
        kept_except(before, after, more),
{
    assert forall|id: ObjectId, key: Seq<u8>|
        before.dom().contains(id) && before[id] is Dictionary && !more.contains((id, key)) implies #[trigger] dict_get(
        after[id]->Dictionary_0@,
        key,
    ) == dict_get(before[id]->Dictionary_0@, key) by {
        assert(!writes.contains((id, key)));
    }
}

/// Keeping all but some entries keeps, for one key, all but the entries under
/// that key that were written.
pub proof fn lemma_except_to_kept(
    before: Map<ObjectId, PdfObject>,
    after: Map<ObjectId, PdfObject>,
    writes: Set<(ObjectId, Seq<u8>)>,
    key: Seq<u8>,
    changed: Set<ObjectId>,
)
    requires
        kept_except(before, after, writes),
        forall|t: ObjectId| #[trigger] writes.contains((t, key)) ==> changed.contains(t),
    ensures
        kept_but(before, after, key, changed),
{
    assert forall|id: ObjectId|
        before.dom().contains(id) && !changed.contains(id) && before[id] is Dictionary implies dict_get(
        (#[trigger] after[id])->Dictionary_0@,
        key,
    ) == dict_get(before[id]->Dictionary_0@, key) by {
        assert(!writes.contains((id, key)));
        assert(dict_get(after[id]->Dictionary_0@, key) == dict_get(before[id]->Dictionary_0@, key));
    }
}

/// Where all but some entries are kept, a dictionary that an id resolved to is
/// still reached from it, stored under the same id, and each entry that was not
/// written there keeps its value.
pub proof fn lemma_except_get(
    before: Map<ObjectId, PdfObject>,
    after: Map<ObjectId, PdfObject>,
    writes: Set<(ObjectId, Seq<u8>)>,
    q: ObjectId,
    key: Seq<u8>,
)
    requires
        kept_except(before, after, writes),
        resolve_dict(before, q) is Some,
        !writes.contains((resolve(before, q).unwrap().0, key)),
    ensures
        resolve_dict(after, q) is Some,
        resolve(after, q).unwrap().0 == resolve(before, q).unwrap().0,
        dict_get(resolve_dict(after, q).unwrap(), key) == dict_get(resolve_dict(before, q).unwrap(), key),
{
    lemma_except_follow(before, after, writes, q, 0);
    lemma_follow_result(before, q, 0);
    let t = resolve(before, q).unwrap().0;
    assert(dict_get(after[t]->Dictionary_0@, key) == dict_get(before[t]->Dictionary_0@, key));
}

/// Where all but some entries are kept, a dictionary that an id resolved to is
/// still reached from it, stored under the same id.
pub proof fn lemma_except_resolve(
    before: Map<ObjectId, PdfObject>,
    after: Map<ObjectId, PdfObject>,
    writes: Set<(ObjectId, Seq<u8>)>,
    q: ObjectId,
)
    requires
        kept_except(before, after, writes),
        resolve_dict(before, q) is Some,
    ensures
        resolve_dict(after, q) is Some,
        resolve(after, q).unwrap().0 == resolve(before, q).unwrap().0,
{
    lemma_except_follow(before, after, writes, q, 0);
}

proof fn lemma_except_follow(
    before: Map<ObjectId, PdfObject>,
    after: Map<ObjectId, PdfObject>,
    writes: Set<(ObjectId, Seq<u8>)>,
    id: ObjectId,
    steps: nat,
)
    requires
        kept_except(before, after, writes),
        before.dom().contains(id),
        follow(before, id, before[id], steps) matches Some((_, o)) && o is Dictionary,
    ensures
        follow(after, id, after[id], steps) matches Some((t, o)) && o is Dictionary && t == follow(
            before,
            id,
            before[id],
            steps,
        ).unwrap().0 && o == after[t],
    decreases deref_limit() - steps,
{
    assert(after.dom().contains(id));
    if let PdfObject::Reference(number, generation) = before[id] {
        assert(after[id] == before[id]);
        lemma_except_follow(before, after, writes, (number, generation), steps + 1);
    } else {
        assert(before[id] is Dictionary);
        assert(after[id] is Dictionary);
    }
}

/// Appending an entry under a key that the entries lack keeps the keys
/// distinct, stores the value under that key, and leaves every other key's value.
pub proof fn lemma_push_entry(d: Seq<(Vec<u8>, PdfObject)>, k: Vec<u8>, v: PdfObject)
    requires
        keys_distinct(d),
        !has_key(d, k@),
    ensures
        keys_distinct(d.push((k, v))),
        dict_get(d.push((k, v)), k@) == Some(v),
        forall|key: Seq<u8>| key != k@ ==> #[trigger] dict_get(d.push((k, v)), key) == dict_get(d, key),
{
    let e = d.push((k, v));
    assert forall|i: int, j: int|
        0 <= i < e.len() && 0 <= j < e.len() && i != j implies (#[trigger] e[i]).0@ != (#[trigger] e[j]).0@ by {
        if i < d.len() && j < d.len() {
            assert(d[i] == e[i] && d[j] == e[j]);
        } else if i < d.len() {
            assert(d[i] == e[i]);
        } else {
            assert(d[j] == e[j]);
        }
    }
    assert(e[d.len() as int].0@ == k@);
    assert(has_key(e, k@));
    let ki: int = key_index(e, k@);
    if ki != d.len() as int {
        assert(e[ki].0@ != e[d.len() as int].0@);
    }
    assert forall|key: Seq<u8>| key != k@ implies #[trigger] dict_get(e, key) == dict_get(d, key) by {
        if has_key(d, key) {
            let i: int = key_index(d, key);
            assert(e[i] == d[i]);
            assert(has_key(e, key));
            let j: int = key_index(e, key);
            if j != i {
                assert(e[j].0@ != e[i].0@);
            }
        } else {
            if has_key(e, key) {
                let j: int = key_index(e, key);
                assert(j < d.len());
                assert(d[j] == e[j]);
            }
        }
    }
}

/// Byte-wise equality of a key with a byte string.
pub fn bytes_equal(a: &Vec<u8>, b: &[u8]) -> (r: bool)
    ensures
        r == (a@ == b@),
{
    if a.len() != b.len() {
        return false;
    }
    let mut i: usize = 0;
    while i < a.len()
        invariant
            a@.len() == b@.len(),
            i <= a@.len(),
            forall|j: int| 0 <= j < i ==> a@[j] == b@[j],
        decreases a@.len() - i,
    {
        if a[i] != b[i] {
            return false;
        }
        i = i + 1;
    }
    assert(a@ =~= b@);
    true
}

/// The position of the key among the entries, if it occurs.
pub fn find_key(d: &Entries, key: &[u8]) -> (r: Option<usize>)
    requires
        keys_distinct(d@),
    ensures
        r is None <==> !has_key(d@, key@),
        r matches Some(i) ==> i < d@.len() && i == key_index(d@, key@) && d@[i as int].0@ == key@,
{
    let mut i: usize = 0;
    while i < d.len()
        invariant
            i <= d@.len(),
            keys_distinct(d@),
            forall|j: int| 0 <= j < i ==> (#[trigger] d@[j]).0@ != key@,
        decreases d@.len() - i,
    {
        if bytes_equal(&d[i].0, key) {
            proof {
                assert(has_key(d@, key@));
                let k: int = key_index(d@, key@);
                assert(d@[k].0@ == key@);
                assert(d@[i as int].0@ == key@);
                if k != i as int {
                    assert(d@[k].0@ != d@[i as int].0@);
                }
            }
            return Some(i);
        }
        i = i + 1;
    }
    None
}

/// Takes the value stored under the key out of the entries.
pub fn take_entry(d: Entries, key: &[u8]) -> (r: Option<PdfObject>)
    requires
        keys_distinct(d@),
    ensures
        r == dict_get(d@, key@),
{
    let mut d = d;
    match find_key(&d, key) {
        None => None,
        Some(i) => {
            let (_, v) = d.remove(i);
            Some(v)
        },
    }
}

} // verus!
