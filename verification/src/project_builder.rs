use vstd::prelude::*;

verus! {

/// The key that marks a script's type id in its documentation.
pub open spec fn script_key() -> Seq<char> {
    seq!['{', 's', 'c', 'r', 'i', 'p', 't', '_', 't', 'y', 'p', 'e', '_', 'i', 'd', '=']
}

/// The key starts at position `i` of `s`.
pub open spec fn key_at(s: Seq<char>, i: int) -> bool {
    &&& 0 <= i
    &&& i + 16 <= s.len()
    &&& s.subrange(i, i + 16) == script_key()
}

/// The characters of `t` before its first '}', all of them if it has none.
pub open spec fn until_brace(t: Seq<char>) -> Seq<char>
    decreases t.len(),
{
    if t.len() == 0 {
        t
    } else if t[0] == '}' {
        Seq::empty()
    } else {
        seq![t[0]] + until_brace(t.drop_first())
    }
}

/// The value of a sequence of decimal digits.
pub open spec fn digits_value(s: Seq<char>) -> int
    decreases s.len(),
{
    if s.len() == 0 {
        0
    } else {
        digits_value(s.drop_last()) * 10 + (s.last() as int - '0' as int)
    }
}

/// What `str::parse::<u32>` makes of a text: an optional '+', then at
/// least one decimal digit and nothing else, for a value that fits.
pub open spec fn parsed_u32(s: Seq<char>) -> Option<u32> {
    let d = if s.len() > 0 && s[0] == '+' {
        s.drop_first()
    } else {
        s
    };
    if d.len() > 0 && (forall|i: int| 0 <= i < d.len() ==> '0' <= #[trigger] d[i] <= '9') && digits_value(d) <= u32::MAX {
        Some(digits_value(d) as u32)
    } else {
        None
    }
}

/// `str::parse::<u32>`, its error dropped: the number a text holds, as
/// the documentation of `u32::from_str` describes it.
#[verifier::external_body]
fn parse_u32(s: &str) -> (r: Option<u32>)
    ensures
        r == parsed_u32(s@),
{
    s.parse::<u32>().ok()
}

/// The text of the script type id in a script's documentation: after the
/// first "{script_type_id=", up to the next '}' or the end; `None` without
/// the key.
pub fn script_type_id_text(docs: &str) -> (r: Option<&str>)
    ensures
        r is None <==> forall|i: int| !#[trigger] key_at(docs@, i),
        r is Some ==> exists|i: int| #![trigger key_at(docs@, i)]
            key_at(docs@, i) && (forall|j: int| 0 <= j < i ==> !#[trigger] key_at(docs@, j))
            && r->0@ == until_brace(docs@.subrange(i + 16, docs@.len() as int)),
{
    let key: [char; 16] = ['{', 's', 'c', 'r', 'i', 'p', 't', '_', 't', 'y', 'p', 'e', '_', 'i', 'd', '='];
    let n = docs.unicode_len();
    if n < 16 {
        return None;
    }
    let mut i: usize = 0;
    while i <= n - 16
        invariant
            n == docs@.len(),
            16 <= n,
            key@ == script_key(),
            i <= n - 15,
            forall|j: int| 0 <= j < i ==> !#[trigger] key_at(docs@, j),
        decreases n - i,
    {
        let mut k: usize = 0;
        while k < 16 && docs.get_char(i + k) == key[k]
            invariant
                n == docs@.len(),
                i + 16 <= n,
                key@ == script_key(),
                k <= 16,
                forall|m: int| 0 <= m < k ==> docs@[i + m] == key@[m],
            decreases 16 - k,
        {
            k = k + 1;
        }
        if k == 16 {
            assert(docs@.subrange(i as int, i + 16) =~= script_key());
            assert(key_at(docs@, i as int));
            let start = i + 16;
            let mut j: usize = start;
            while j < n && docs.get_char(j) != '}'
                invariant
                    n == docs@.len(),
                    start <= j <= n,
                    forall|m: int| start <= m < j ==> docs@[m] != '}',
                decreases n - j,
            {
                j = j + 1;
            }
            let text = docs.substring_char(start, j);
            proof {
                let t = docs@.subrange(start as int, n as int);
                assert forall|m: int| 0 <= m < j - start implies t[m] != '}' by {
                    assert(t[m] == docs@[start + m]);
                }
                lemma_until_brace(t, (j - start) as int);
                assert(docs@.subrange(start as int, j as int) =~= t.take((j - start) as int));
            }
            return Some(text);
        }
        proof {
            assert(!key_at(docs@, i as int)) by {
                if key_at(docs@, i as int) {
                    assert(docs@.subrange(i as int, i + 16)[k as int] == docs@[i + k]);
                }
            }
        }
        i = i + 1;
    }
    proof {
        assert forall|j: int| !#[trigger] key_at(docs@, j) by {
            if j >= i {
                assert(j + 16 > n);
            }
        }
    }
    None
}

/// The characters before the first '}' are the first `j` when no '}' comes
/// before `j` and one is at `j`, or `j` is the end.
proof fn lemma_until_brace(t: Seq<char>, j: int)
    requires
        0 <= j <= t.len(),
        forall|m: int| 0 <= m < j ==> t[m] != '}',
        j < t.len() ==> t[j] == '}',
    ensures
        until_brace(t) == t.take(j),
    decreases t.len(),
{
    if t.len() == 0 {
        assert(t.take(j) =~= t);
    } else if j == 0 {
        assert(t.take(0) =~= Seq::<char>::empty());
    } else {
        lemma_until_brace(t.drop_first(), j - 1);
        assert(seq![t[0]] + t.drop_first().take(j - 1) =~= t.take(j));
    }
}

/// The key starts at `i` of `d`, and nowhere before.
pub open spec fn first_key(d: Seq<char>, i: int) -> bool {
    &&& key_at(d, i)
    &&& forall|j: int| 0 <= j < i ==> !#[trigger] key_at(d, j)
}

/// The script type id that documentation `d` gives: `None` without the
/// key, `Some(None)` where the text after the first key is not a number.
pub open spec fn docs_script_id(d: Seq<char>) -> Option<Option<u32>> {
    if exists|i: int| #[trigger] key_at(d, i) {
        let i = choose|i: int| first_key(d, i);
        Some(parsed_u32(until_brace(d.subrange(i + 16, d.len() as int))))
    } else {
        None
    }
}

/// The script type id that a script's documentation gives: `None` without
/// the key, `Some(None)` where the text after the key is not a number.
pub fn script_type_id_from_docs(docs: &str) -> (r: Option<Option<u32>>)
    ensures
        r == docs_script_id(docs@),
        r is None <==> forall|i: int| !#[trigger] key_at(docs@, i),
        r is Some ==> exists|i: int| #![trigger key_at(docs@, i)]
            key_at(docs@, i) && (forall|j: int| 0 <= j < i ==> !#[trigger] key_at(docs@, j))
            && r->0 == parsed_u32(until_brace(docs@.subrange(i + 16, docs@.len() as int))),
{
    match script_type_id_text(docs) {
        Some(text) => {
            let r = Some(parse_u32(text));
            proof {
                let d = docs@;
                let i0 = choose|i: int| #![trigger key_at(d, i)]
                    key_at(d, i) && (forall|j: int| 0 <= j < i ==> !#[trigger] key_at(d, j))
                    && text@ == until_brace(d.subrange(i + 16, d.len() as int));
                assert(first_key(d, i0));
                let i1 = choose|i: int| first_key(d, i);
                assert(first_key(d, i1));
                if i1 < i0 {
                    assert(!key_at(d, i1));
                } else if i0 < i1 {
                    assert(!key_at(d, i0));
                }
                assert(i0 == i1);
            }
            r
        },
        None => None,
    }
}

/// An item of rustdoc's JSON description of a crate, as far as finding
/// scripts reads it: its kind, the name of the trait it implements, its
/// documentation and the name of the type it is implemented for, each
/// where it is there as a string.
pub struct RustdocItem {
    pub kind: Option<String>,
    pub trait_name: Option<String>,
    pub docs: Option<String>,
    pub for_name: Option<String>,
}

/// The items of the "index" object of rustdoc's JSON output `json`, in the
/// order in which the parsed object hands them out; `None` where `json`
/// is no JSON or has no "index" object.
pub uninterp spec fn rustdoc_items_of(json: Seq<u8>) -> Option<Seq<RustdocItem>>;

/// `serde_json::from_slice` into a `serde_json::Value`, then the values of
/// its "index" object, each read into a `RustdocItem` by the paths that
/// build uses: `kind`, `inner.trait.name`, `docs` and `inner.for.inner.name`,
/// taken where they are strings. The contract names the result after the
/// bytes; what JSON parsing gives is not written out.
#[verifier::external_body]
fn rustdoc_items(json: &[u8]) -> (r: Option<Vec<RustdocItem>>)
    ensures
        r is Some <==> rustdoc_items_of(json@) is Some,
        r is Some ==> r->0@ == rustdoc_items_of(json@)->0,
{
    let value: serde_json::Value = serde_json::from_slice(json).ok()?;
    let index = value["index"].as_object()?;
    let text = |v: &serde_json::Value| v.as_str().map(String::from);
    Some(index.values().map(|item| RustdocItem {
        kind: text(&item["kind"]),
        trait_name: item["inner"].get("trait").and_then(|t| text(&t["name"])),
        docs: text(&item["docs"]),
        for_name: text(&item["inner"]["for"]["inner"]["name"]),
    }).collect())
}

/// `t` is there and reads `s`.
pub open spec fn text_is(t: Option<String>, s: Seq<char>) -> bool {
    t matches Some(x) && x@ == s
}

/// The kind of an implementation block.
pub open spec fn impl_kind() -> Seq<char> {
    seq!['i', 'm', 'p', 'l']
}

/// The name of the trait that scripts implement to carry their type id.
pub open spec fn type_id_trait() -> Seq<char> {
    seq!['H', 'a', 's', 'T', 'y', 'p', 'e', 'I', 'd']
}

/// What an item contributes to the scripts: `Some(None)` where it is no
/// implementation of `HasTypeId`, or one whose documentation lacks the key;
/// `Some(Some((id, name)))` for a script; `None` where such an
/// implementation has no documentation, an id that is not a number, or no
/// name for its type.
pub open spec fn item_script(it: RustdocItem) -> Option<Option<(u32, Seq<char>)>> {
    if !(text_is(it.kind, impl_kind()) && text_is(it.trait_name, type_id_trait())) {
        Some(None)
    } else {
        match it.docs {
            None => None,
            Some(d) => match docs_script_id(d@) {
                None => Some(None),
                Some(None) => None,
                Some(Some(id)) => match it.for_name {
                    None => None,
                    Some(n) => Some(Some((id, n@))),
                },
            },
        }
    }
}

/// The scripts that `items` declare, in order: `None` where any item is
/// malformed in the way `item_script` describes.
pub open spec fn scripts_of(items: Seq<RustdocItem>) -> Option<Seq<(u32, Seq<char>)>>
    decreases items.len(),
{
    if items.len() == 0 {
        Some(Seq::empty())
    } else {
        match (scripts_of(items.drop_last()), item_script(items.last())) {
            (Some(prev), Some(None)) => Some(prev),
            (Some(prev), Some(Some(p))) => Some(prev.push(p)),
            _ => None,
        }
    }
}

/// A list of scripts with their names as text.
pub open spec fn script_list_view(v: Seq<(u32, String)>) -> Seq<(u32, Seq<char>)> {
    v.map_values(|p: (u32, String)| (p.0, p.1@))
}

/// Once a prefix of the items fails, all of them do.
proof fn lemma_scripts_fail_extends(items: Seq<RustdocItem>, k: int)
    requires
        0 <= k <= items.len(),
        scripts_of(items.take(k)) is None,
    ensures
        scripts_of(items) is None,
    decreases items.len() - k,
{
    if k == items.len() {
        assert(items.take(k) =~= items);
    } else {
        assert(items.take(k + 1).drop_last() =~= items.take(k));
        lemma_scripts_fail_extends(items, k + 1);
    }
}

fn text_is_exec(t: &Option<String>, lit: &str) -> (r: bool)
    ensures
        r == text_is(*t, lit@),
{
    match t {
        Some(s) => {
            let l = String::from_str(lit);
            *s == l
        },
        None => false,
    }
}

fn item_script_exec(it: &RustdocItem) -> (r: Option<Option<(u32, String)>>)
    ensures
        match item_script(*it) {
            None => r is None,
            Some(None) => r == Some(None::<(u32, String)>),
            Some(Some(p)) => r matches Some(Some(q)) && q.0 == p.0 && q.1@ == p.1,
        },
{
    proof {
        reveal_strlit("impl");
        reveal_strlit("HasTypeId");
        assert("impl"@ =~= impl_kind());
        assert("HasTypeId"@ =~= type_id_trait());
    }
    if !(text_is_exec(&it.kind, "impl") && text_is_exec(&it.trait_name, "HasTypeId")) {
        return Some(None);
    }
    match &it.docs {
        None => None,
        Some(d) => match script_type_id_from_docs(d.as_str()) {
            None => Some(None),
            Some(None) => None,
            Some(Some(id)) => match &it.for_name {
                None => None,
                Some(n) => Some(Some((id, n.clone()))),
            },
        },
    }
}

/// The scripts that rustdoc's items declare, in the order of the items:
/// each implementation of `HasTypeId` whose documentation holds
/// "{script_type_id=N}" gives the id N and the name of its type. `None`
/// where such an implementation has no documentation, an id that is not a
/// number, or no type name.
pub fn scripts_in_items(items: &Vec<RustdocItem>) -> (r: Option<Vec<(u32, String)>>)
    ensures
        match scripts_of(items@) {
            None => r is None,
            Some(s) => r matches Some(v) && script_list_view(v@) == s,
        },
{
    let mut out: Vec<(u32, String)> = Vec::new();
    let mut k: usize = 0;
    while k < items.len()
        invariant
            k <= items.len(),
            scripts_of(items@.take(k as int)) == Some(script_list_view(out@)),
        decreases items.len() - k,
    {
        proof {
            assert(items@.take(k + 1).drop_last() =~= items@.take(k as int));
            assert(items@.take(k + 1).last() == items@[k as int]);
        }
        match item_script_exec(&items[k]) {
            None => {
                proof {
                    lemma_scripts_fail_extends(items@, k + 1);
                }
                return None;
            },
            Some(None) => {},
            Some(Some(p)) => {
                let ghost before = out@;
                let ghost q = (p.0, p.1@);
                out.push(p);
                assert(script_list_view(out@) =~= script_list_view(before).push(q));
            },
        }
        k = k + 1;
    }
    assert(items@.take(k as int) =~= items@);
    Some(out)
}

/// The scripts that the user's code declares, from the JSON that rustdoc
/// writes for it: `None` where that is no JSON with an "index" object, or
/// where `scripts_in_items` fails on its items.
pub fn find_user_scripts(json: &[u8]) -> (r: Option<Vec<(u32, String)>>)
    ensures
        match rustdoc_items_of(json@) {
            None => r is None,
            Some(items) => match scripts_of(items) {
                None => r is None,
                Some(s) => r matches Some(v) && script_list_view(v@) == s,
            },
        },
{
    match rustdoc_items(json) {
        None => None,
        Some(items) => scripts_in_items(&items),
    }
}

} // verus!
