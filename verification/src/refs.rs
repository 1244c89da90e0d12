use vstd::prelude::*;
use crate::text::{chars_of, push_char, push_str, push_decimal, string_of, same_text, decimal, contains_text, owned};

verus! {

/// `"{type}:{id}"`, the name under which an object is indexed.
pub open spec fn object_ref_text(obj_type: Seq<char>, id: Seq<char>) -> Seq<char> {
    obj_type + seq![':'] + id
}

/// `"spatial:{precision}:{cell}"`, the key of a cell of the spatial index.
pub open spec fn spatial_key_text(precision: nat, cell: Seq<char>) -> Seq<char> {
    seq!['s', 'p', 'a', 't', 'i', 'a', 'l', ':'] + decimal(precision) + seq![':'] + cell
}

/// `"obj:{type}:{id}"`, the key of a stored object, from its reference `"{type}:{id}"`.
pub open spec fn object_key_text(object_ref: Seq<char>) -> Seq<char> {
    seq!['o', 'b', 'j', ':'] + object_ref
}

/// `"dev:{device_id}"`, the key of a device's state.
pub open spec fn device_key_text(device_id: Seq<char>) -> Seq<char> {
    seq!['d', 'e', 'v', ':'] + device_id
}

/// `"store-depts:{store_id}"`, the key of a venue's list of departments.
pub open spec fn store_departments_key_text(store_id: Seq<char>) -> Seq<char> {
    seq!['s', 't', 'o', 'r', 'e', '-', 'd', 'e', 'p', 't', 's', ':'] + store_id
}

/// The object reference `"{type}:{id}"`.
pub fn object_ref(obj_type: &str, id: &str) -> (r: String)
    ensures
        r@ == object_ref_text(obj_type@, id@),
{
    let mut r = String::new();
    push_str(&mut r, obj_type);
    push_char(&mut r, ':');
    push_str(&mut r, id);
    assert(r@ =~= object_ref_text(obj_type@, id@));
    r
}

/// The key of a cell of the spatial index at the given precision.
pub fn spatial_key(precision: u8, cell: &str) -> (r: String)
    ensures
        r@ == spatial_key_text(precision as nat, cell@),
{
    let mut r = String::new();
    proof {
        reveal_strlit("spatial:");
    }
    push_str(&mut r, "spatial:");
    push_decimal(&mut r, precision as u64);
    push_char(&mut r, ':');
    push_str(&mut r, cell);
    assert(r@ =~= spatial_key_text(precision as nat, cell@));
    r
}

/// The key under which the object with reference `object_ref` is stored.
pub fn object_key(object_ref: &str) -> (r: String)
    ensures
        r@ == object_key_text(object_ref@),
{
    let mut r = String::new();
    proof {
        reveal_strlit("obj:");
    }
    push_str(&mut r, "obj:");
    push_str(&mut r, object_ref);
    assert(r@ =~= object_key_text(object_ref@));
    r
}

/// The key under which a device's state is stored.
pub fn device_key(device_id: &str) -> (r: String)
    ensures
        r@ == device_key_text(device_id@),
{
    let mut r = String::new();
    proof {
        reveal_strlit("dev:");
    }
    push_str(&mut r, "dev:");
    push_str(&mut r, device_id);
    assert(r@ =~= device_key_text(device_id@));
    r
}

/// The key under which the department references of a venue are stored.
pub fn store_departments_key(store_id: &str) -> (r: String)
    ensures
        r@ == store_departments_key_text(store_id@),
{
    let mut r = String::new();
    proof {
        reveal_strlit("store-depts:");
    }
    push_str(&mut r, "store-depts:");
    push_str(&mut r, store_id);
    assert(r@ =~= store_departments_key_text(store_id@));
    r
}

/// The characters of `s` before the first `c` (all of `s` when it holds no `c`).
pub open spec fn prefix_until(s: Seq<char>, c: char) -> Seq<char>
    decreases s.len(),
{
    if s.len() == 0 {
        s
    } else if s[0] == c {
        Seq::empty()
    } else {
        seq![s[0]] + prefix_until(s.drop_first(), c)
    }
}

/// The characters of `s` after the first `c`, or `None` when `s` holds no `c`.
pub open spec fn after_first(s: Seq<char>, c: char) -> Option<Seq<char>> {
    if s.contains(c) {
        Some(s.skip(prefix_until(s, c).len() as int + 1))
    } else {
        None
    }
}

/// `prefix_until` is the prefix up to the first occurrence.
pub proof fn lemma_prefix_until(s: Seq<char>, c: char, i: int)
    requires
        0 <= i <= s.len(),
        forall|j: int| 0 <= j < i ==> s[j] != c,
        i == s.len() || s[i] == c,
    ensures
        prefix_until(s, c) == s.take(i),
        s.contains(c) <==> i < s.len(),
    decreases i,
{
    if i > 0 {
        let t = s.drop_first();
        assert forall|j: int| 0 <= j < i - 1 implies t[j] != c by {
            assert(t[j] == s[j + 1]);
        }
        if i < s.len() {
            assert(t[i - 1] == s[i]);
        }
        lemma_prefix_until(t, c, i - 1);
        assert(s.take(i) =~= seq![s[0]] + t.take(i - 1));
        if t.contains(c) {
            let k = choose|k: int| 0 <= k < t.len() && t[k] == c;
            assert(s[k + 1] == c);
        }
        if s.contains(c) && s[0] != c {
            let k = choose|k: int| 0 <= k < s.len() && s[k] == c;
            assert(t[k - 1] == c);
        }
    } else {
        assert(s.take(0) =~= Seq::<char>::empty());
        if s.len() == 0 {
            assert(!s.contains(c));
        }
    }
}

/// Splits `s` at its first `c`: the text before it and, when there is one, the text after it.
pub fn split_first(s: &Vec<char>, c: char) -> (r: (Vec<char>, Option<Vec<char>>))
    ensures
        r.0@ == prefix_until(s@, c),
        r.1 is Some == s@.contains(c),
        r.1 matches Some(t) ==> after_first(s@, c) == Some(t@),
{
    let mut head: Vec<char> = Vec::new();
    let mut i: usize = 0;
    while i < s.len() && s[i] != c
        invariant
            i <= s@.len(),
            head@ == s@.take(i as int),
            forall|j: int| 0 <= j < i ==> s@[j] != c,
        decreases s@.len() - i,
    {
        head.push(s[i]);
        assert(s@.take(i + 1) =~= s@.take(i as int).push(s@[i as int]));
        i += 1;
    }
    proof {
        lemma_prefix_until(s@, c, i as int);
    }
    if i == s.len() {
        (head, None)
    } else {
        let mut tail: Vec<char> = Vec::new();
        let mut k: usize = i + 1;
        while k < s.len()
            invariant
                i < k <= s@.len(),
                tail@ == s@.subrange(i + 1, k as int),
            decreases s@.len() - k,
        {
            tail.push(s[k]);
            assert(s@.subrange(i + 1, k + 1) =~= s@.subrange(i + 1, k as int).push(s@[k as int]));
            k += 1;
        }
        assert(tail@ =~= s@.skip(i + 1));
        (head, Some(tail))
    }
}

/// The name part of a spatial-index reference `"type:id|lat|lon"`: the text before the
/// first `|`, or the whole reference when it has none.
pub fn ref_name(reference: &str) -> (r: String)
    ensures
        r@ == prefix_until(reference@, '|'),
{
    let v = chars_of(reference);
    let (head, _) = split_first(&v, '|');
    string_of(&head)
}

/// The three parts of a reference split at its first two `|`: the name, then the text
/// between the first and the second `|` (or to the end), then what follows the second `|`.
pub open spec fn ref_parts_spec(r: Seq<char>) -> (Seq<char>, Option<Seq<char>>, Option<Seq<char>>) {
    match after_first(r, '|') {
        None => (prefix_until(r, '|'), None, None),
        Some(rest) => (prefix_until(r, '|'), Some(prefix_until(rest, '|')), after_first(rest, '|')),
    }
}

/// Splits a reference `"type:id|lat|lon"` into at most three parts at its first two `|`.
pub fn ref_parts(reference: &str) -> (r: (String, Option<String>, Option<String>))
    ensures
        (r.0@, r.1.deep_view(), r.2.deep_view()) == ref_parts_spec(reference@),
{
    let v = chars_of(reference);
    let (head, tail) = split_first(&v, '|');
    let name = string_of(&head);
    match tail {
        None => (name, None, None),
        Some(rest) => {
            let (second, third) = split_first(&rest, '|');
            let lat = string_of(&second);
            match third {
                None => (name, Some(lat), None),
                Some(t) => (name, Some(lat), Some(string_of(&t))),
            }
        },
    }
}

/// What `serde_json` makes of bytes read as a JSON array of strings (`None` where the
/// bytes are not one).
pub uninterp spec fn json_string_list(bytes: Seq<u8>) -> Option<Seq<Seq<char>>>;

/// The JSON text that `serde_json` writes for an array of strings.
pub uninterp spec fn json_of_string_list(items: Seq<Seq<char>>) -> Seq<u8>;

#[verifier::external_type_specification]
#[verifier::external_body]
pub struct ExJsonError(serde_json::Error);

/// `serde_json::from_slice::<Vec<String>>`: the bytes read as a JSON array of strings.
/// Claims only that the result is the named function of the bytes.
#[verifier::external_body]
fn parse_string_list(bytes: &[u8]) -> (r: Option<Vec<String>>)
    ensures
        r.deep_view() == json_string_list(bytes@),
{
    serde_json::from_slice::<Vec<String>>(bytes).ok()
}

/// `serde_json::to_vec` on a `Vec<String>`: the JSON text of the array.  Claims that it
/// succeeds (its documented failures are a `Serialize` impl that fails and a map with
/// non-string keys; strings and sequences of them do neither, and the `Vec<u8>` it
/// writes into takes every write), that the text is the named function of the strings,
/// and that reading it back as an array of strings gives the same strings.
#[verifier::external_body]
fn write_string_list(items: &Vec<String>) -> (r: Result<Vec<u8>, serde_json::Error>)
    ensures
        r is Ok,
        r matches Ok(b) ==> b@ == json_of_string_list(items.deep_view()) && json_string_list(b@)
            == Some(items.deep_view()),
{
    serde_json::to_vec(items)
}

/// The references that a stored cell value holds: none when the key was absent or its
/// value is not a JSON array of strings.
pub open spec fn stored_list(stored: Option<Seq<u8>>) -> Seq<Seq<char>> {
    match stored {
        None => Seq::empty(),
        Some(b) => match json_string_list(b) {
            Some(l) => l,
            None => Seq::empty(),
        },
    }
}

/// The bytes of a value read from the store, if any.
pub open spec fn stored_bytes(stored: Option<&[u8]>) -> Option<Seq<u8>> {
    match stored {
        Some(b) => Some(b@),
        None => None,
    }
}

/// The references held by a stored cell value (the bytes read from the store, or `None`
/// when the read found nothing or failed).
pub fn stored_refs(stored: Option<&[u8]>) -> (r: Vec<String>)
    ensures
        r.deep_view() == stored_list(stored_bytes(stored)),
{
    match stored {
        None => {
            let r: Vec<String> = Vec::new();
            assert(r.deep_view() =~= Seq::<Seq<char>>::empty());
            r
        },
        Some(b) => match parse_string_list(b) {
            Some(l) => l,
            None => {
                let r: Vec<String> = Vec::new();
                assert(r.deep_view() =~= Seq::<Seq<char>>::empty());
                r
            },
        },
    }
}

/// Some reference in `refs` has the name `name`.
pub open spec fn has_ref_named(refs: Seq<Seq<char>>, name: Seq<char>) -> bool {
    exists|i: int| 0 <= i < refs.len() && prefix_until(#[trigger] refs[i], '|') == name
}

/// No two references in `refs` share a name.
pub open spec fn names_unique(refs: Seq<Seq<char>>) -> bool {
    forall|i: int, j: int|
        0 <= i < refs.len() && 0 <= j < refs.len() && i != j ==> prefix_until(#[trigger] refs[i], '|')
            != prefix_until(#[trigger] refs[j], '|')
}

/// Adds `object_ref` to the references held by a stored cell value, unless one with the
/// same name is already there.  `None`: nothing to write.  `Some(bytes)`: the new value
/// to write, the old references followed by `object_ref`.
pub fn append_ref(stored: Option<&[u8]>, object_ref: &str) -> (r: Option<Vec<u8>>)
    ensures
        ({
            let old_refs = stored_list(stored_bytes(stored));
            let name = prefix_until(object_ref@, '|');
            &&& r is None <==> has_ref_named(old_refs, name)
            &&& r matches Some(b) ==> {
                &&& b@ == json_of_string_list(old_refs.push(object_ref@))
                &&& json_string_list(b@) == Some(old_refs.push(object_ref@))
            }
        }),
{
    let mut refs = stored_refs(stored);
    let name = ref_name(object_ref);
    let mut i: usize = 0;
    while i < refs.len()
        invariant
            i <= refs@.len(),
            name@ == prefix_until(object_ref@, '|'),
            refs.deep_view() == stored_list(stored_bytes(stored)),
            forall|j: int| 0 <= j < i ==> prefix_until(#[trigger] refs.deep_view()[j], '|') != name@,
        decreases refs@.len() - i,
    {
        let existing = ref_name(refs[i].as_str());
        if same_text(existing.as_str(), name.as_str()) {
            assert(refs.deep_view()[i as int] == refs@[i as int]@);
            assert(prefix_until(refs.deep_view()[i as int], '|') == name@);
            assert(has_ref_named(refs.deep_view(), name@));
            return None;
        }
        assert(refs.deep_view()[i as int] == refs@[i as int]@);
        i += 1;
    }
    let ghost old_refs = refs.deep_view();
    assert(!has_ref_named(old_refs, name@));
    refs.push(string_of(&chars_of(object_ref)));
    assert(refs.deep_view() =~= old_refs.push(object_ref@));
    match write_string_list(&refs) {
        Ok(b) => Some(b),
        Err(_) => None,
    }
}

/// Appending a reference whose name is new keeps the names of a list distinct, so the
/// cells of the spatial index never list one object twice.
pub proof fn lemma_append_keeps_names_unique(refs: Seq<Seq<char>>, r: Seq<char>)
    requires
        names_unique(refs),
        !has_ref_named(refs, prefix_until(r, '|')),
    ensures
        names_unique(refs.push(r)),
        has_ref_named(refs.push(r), prefix_until(r, '|')),
{
    let n = refs.push(r);
    assert(n[refs.len() as int] == r);
    assert forall|i: int, j: int|
        0 <= i < n.len() && 0 <= j < n.len() && i != j implies prefix_until(#[trigger] n[i], '|')
        != prefix_until(#[trigger] n[j], '|') by {
        if i < refs.len() && j < refs.len() {
            assert(n[i] == refs[i] && n[j] == refs[j]);
        } else if i < refs.len() {
            assert(n[i] == refs[i]);
        } else {
            assert(n[j] == refs[j]);
        }
    }
}


/// The references of `refs`, each once, in the order of their first occurrence.
pub open spec fn distinct_refs(refs: Seq<Seq<char>>) -> Seq<Seq<char>>
    decreases refs.len(),
{
    if refs.len() == 0 {
        Seq::empty()
    } else {
        let r = distinct_refs(refs.drop_last());
        if r.contains(refs.last()) {
            r
        } else {
            r.push(refs.last())
        }
    }
}

/// The references of a list, each once, in the order of their first occurrence.
pub fn dedup_refs(refs: &Vec<String>) -> (r: Vec<String>)
    ensures
        r.deep_view() == distinct_refs(refs.deep_view()),
{
    let mut out: Vec<String> = Vec::new();
    let mut i: usize = 0;
    proof {
        assert(refs.deep_view().take(0) =~= Seq::<Seq<char>>::empty());
        assert(out.deep_view() =~= Seq::<Seq<char>>::empty());
    }
    while i < refs.len()
        invariant
            i <= refs@.len(),
            out.deep_view() == distinct_refs(refs.deep_view().take(i as int)),
        decreases refs@.len() - i,
    {
        let ghost prev = out.deep_view();
        assert(refs.deep_view().take(i + 1).drop_last() =~= refs.deep_view().take(i as int));
        assert(refs.deep_view().take(i + 1).last() == refs@[i as int]@);
        if !contains_text(&out, refs[i].as_str()) {
            out.push(owned(refs[i].as_str()));
            assert(out.deep_view() =~= prev.push(refs@[i as int]@));
        }
        i += 1;
    }
    assert(refs.deep_view().take(refs@.len() as int) =~= refs.deep_view());
    out
}

/// A sequence with one more element contains what it contained and that element.
proof fn lemma_push_contains(s: Seq<Seq<char>>, a: Seq<char>)
    ensures
        forall|x: Seq<char>| s.push(a).contains(x) <==> (s.contains(x) || x == a),
{
    let t = s.push(a);
    assert forall|x: Seq<char>| t.contains(x) <==> (s.contains(x) || x == a) by {
        if t.contains(x) {
            let k = choose|k: int| 0 <= k < t.len() && t[k] == x;
            if k < s.len() {
                assert(s[k] == x);
            }
        }
        if s.contains(x) {
            let k = choose|k: int| 0 <= k < s.len() && s[k] == x;
            assert(t[k] == x);
        }
        if x == a {
            assert(t[s.len() as int] == x);
        }
    }
}

/// Deduplication keeps every reference of the list, and each only once.
pub proof fn lemma_distinct_refs(refs: Seq<Seq<char>>)
    ensures
        forall|x: Seq<char>| distinct_refs(refs).contains(x) <==> refs.contains(x),
        forall|i: int, j: int|
            0 <= i < j < distinct_refs(refs).len() ==> distinct_refs(refs)[i] != distinct_refs(refs)[j],
    decreases refs.len(),
{
    if refs.len() == 0 {
        assert forall|x: Seq<char>| distinct_refs(refs).contains(x) <==> refs.contains(x) by {
            if refs.contains(x) {
                let k = choose|k: int| 0 <= k < refs.len() && refs[k] == x;
            }
        }
    } else {
        let pre = refs.drop_last();
        lemma_distinct_refs(pre);
        let r = distinct_refs(pre);
        assert(refs =~= pre.push(refs.last()));
        lemma_push_contains(pre, refs.last());
        lemma_push_contains(r, refs.last());
        assert forall|x: Seq<char>| distinct_refs(refs).contains(x) <==> refs.contains(x) by {
            assert(pre.push(refs.last()).contains(x) <==> (pre.contains(x) || x == refs.last()));
            assert(r.push(refs.last()).contains(x) <==> (r.contains(x) || x == refs.last()));
            assert(r.contains(x) <==> pre.contains(x));
        }
        if !r.contains(refs.last()) {
            let n = r.push(refs.last());
            assert forall|i: int, j: int| 0 <= i < j < n.len() implies n[i] != n[j] by {
                if j == r.len() {
                    assert(n[i] == r[i]);
                    assert(r.contains(r[i]));
                } else {
                    assert(n[i] == r[i] && n[j] == r[j]);
                }
            }
        }
    }
}

/// Whether some reference in `refs` has the name `name`.
pub fn holds_ref_named(refs: &Vec<String>, name: &str) -> (r: bool)
    ensures
        r == has_ref_named(refs.deep_view(), name@),
{
    let mut i: usize = 0;
    while i < refs.len()
        invariant
            i <= refs@.len(),
            forall|j: int| 0 <= j < i ==> prefix_until(#[trigger] refs.deep_view()[j], '|') != name@,
        decreases refs@.len() - i,
    {
        let existing = ref_name(refs[i].as_str());
        assert(refs.deep_view()[i as int] == refs@[i as int]@);
        if same_text(existing.as_str(), name) {
            assert(prefix_until(refs.deep_view()[i as int], '|') == name@);
            return true;
        }
        i += 1;
    }
    false
}

/// Keeping only the first reference of each name gives a list with distinct names.
pub open spec fn first_by_name(refs: Seq<Seq<char>>) -> Seq<Seq<char>>
    decreases refs.len(),
{
    if refs.len() == 0 {
        Seq::empty()
    } else {
        let kept = first_by_name(refs.drop_last());
        let r = refs.last();
        if has_ref_named(kept, prefix_until(r, '|')) {
            kept
        } else {
            kept.push(r)
        }
    }
}

/// The references kept by `first_by_name` have distinct names, and every name of the
/// input is kept.
pub proof fn lemma_first_by_name(refs: Seq<Seq<char>>)
    ensures
        names_unique(first_by_name(refs)),
        first_by_name(refs).len() <= refs.len(),
        forall|i: int| 0 <= i < refs.len() ==> has_ref_named(first_by_name(refs), prefix_until(#[trigger] refs[i], '|')),
    decreases refs.len(),
{
    if refs.len() > 0 {
        let init = refs.drop_last();
        lemma_first_by_name(init);
        let kept = first_by_name(init);
        let r = refs.last();
        if !has_ref_named(kept, prefix_until(r, '|')) {
            lemma_append_keeps_names_unique(kept, r);
        }
        let out = first_by_name(refs);
        assert forall|i: int| 0 <= i < refs.len() implies has_ref_named(out, prefix_until(#[trigger] refs[i], '|')) by {
            if i < init.len() {
                assert(refs[i] == init[i]);
                assert(has_ref_named(kept, prefix_until(init[i], '|')));
                let k = choose|k: int| 0 <= k < kept.len() && prefix_until(#[trigger] kept[k], '|') == prefix_until(init[i], '|');
                if out != kept {
                    assert(out[k] == kept[k]);
                }
            } else {
                assert(refs[i] == r);
                if out != kept {
                    assert(out[kept.len() as int] == r);
                }
            }
        }
    }
}


/// The text before the first `c` is no longer than `s`, and shorter when `s` holds a `c`.
pub proof fn lemma_prefix_until_len(s: Seq<char>, c: char)
    ensures
        prefix_until(s, c).len() <= s.len(),
        s.contains(c) ==> prefix_until(s, c).len() < s.len(),
    decreases s.len(),
{
    if s.len() > 0 && s[0] != c {
        lemma_prefix_until_len(s.drop_first(), c);
        if s.contains(c) {
            let k = choose|k: int| 0 <= k < s.len() && s[k] == c;
            assert(s.drop_first()[k - 1] == c);
        }
    }
}


/// Without any `c`, the text before the first `c` is the whole text.
pub proof fn lemma_prefix_until_whole(s: Seq<char>, c: char)
    requires
        !s.contains(c),
    ensures
        prefix_until(s, c) == s,
{
    assert forall|j: int| 0 <= j < s.len() implies s[j] != c by {
        if s[j] == c {
            assert(s.contains(c));
        }
    }
    lemma_prefix_until(s, c, s.len() as int);
    assert(s.take(s.len() as int) =~= s);
}

} // verus!
