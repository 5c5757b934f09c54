//! An intentionally minimal [OpenAPI Overlay](https://spec.openapis.org/overlay/v1.0.0.html)
//! implementation: `update`/`remove` actions with targets made of dotted keys and
//! quoted bracket keys, like `$.components` or `$.paths['/pets/{petId}'].get`, not the
//! full JSONPath grammar.

use crate::error::{Error, Result};
use crate::openapi::properties::{actions_keep_well_formed, update_well_formed, well_formed};
use crate::json::{
    entries_of, key_position, lemma_entries_of, lemma_key_position, map_get,
    map_insert, map_remove, opt_ref_json, Json, JsonMap, JsonValue,
};
use vstd::prelude::*;

verus! {

/// A single overlay action.
#[derive(Debug, Clone, PartialEq)]
pub struct OverlayAction {
    /// JSONPath target — `$` or a simple dot-path such as `$.components`.
    pub target: String,
    /// Object to deep-merge onto the target.
    pub update: Option<JsonMap>,
    /// When true, delete the target instead of merging.
    pub remove: Option<bool>,
}

/// Metadata of an overlay document.
#[derive(Debug, Clone, PartialEq)]
pub struct OverlayInfo {
    /// Overlay title.
    pub title: String,
    /// Overlay version.
    pub version: String,
}

/// An OpenAPI Overlay document.
#[derive(Debug, Clone, PartialEq)]
pub struct OverlayDocument {
    /// Overlay specification version.
    pub overlay: String,
    /// Overlay metadata.
    pub info: OverlayInfo,
    /// Actions to apply, in order.
    pub actions: Vec<OverlayAction>,
}

impl Default for OverlayInfo {
    fn default() -> (info: OverlayInfo)
        ensures
            info.title@ == Seq::<char>::empty(),
            info.version@ == Seq::<char>::empty(),
    {
        OverlayInfo { title: String::new(), version: String::new() }
    }
}

/// The model of an action.
pub struct ActionModel {
    pub target: Seq<char>,
    pub update: Option<Seq<(Seq<char>, Json)>>,
    pub remove: Option<bool>,
}

impl View for OverlayAction {
    type V = ActionModel;

    open spec fn view(&self) -> ActionModel {
        ActionModel {
            target: self.target@,
            update: match self.update {
                Some(m) => Some(m@),
                None => None,
            },
            remove: self.remove,
        }
    }
}

/// The models of an overlay's actions, in order.
pub open spec fn actions_of(overlay: OverlayDocument) -> Seq<ActionModel> {
    overlay.actions@.map_values(|a: OverlayAction| a@)
}

/// The texts of a sequence of strings.
pub open spec fn texts(v: Seq<String>) -> Seq<Seq<char>> {
    v.map_values(|s: String| s@)
}

/// Why applying an overlay fails.
pub enum OverlayFault {
    UnsupportedTarget(Seq<char>),
    NotAnObject(Seq<char>),
    RemovesRoot,
}

/// `e` is the error that reports `f`.
pub open spec fn reports(e: Error, f: OverlayFault) -> bool {
    match f {
        OverlayFault::UnsupportedTarget(t) => e matches Error::UnsupportedOverlayTarget(s) && s@ == t,
        OverlayFault::NotAnObject(t) => e matches Error::OverlayTargetNotAnObject(s) && s@ == t,
        OverlayFault::RemovesRoot => e is OverlayRemovesRoot,
    }
}

// ---------------------------------------------------------------------------
// Merging

/// Deep-merges `incoming` onto `existing`: two objects merge key by key, and anything
/// else is replaced by `incoming`.
pub open spec fn deep_merge(existing: Option<Json>, incoming: Json) -> Json
    decreases incoming,
{
    match incoming {
        Json::Object(i) => match existing {
            Some(Json::Object(e)) => Json::Object(merge_entries(e, i)),
            _ => incoming,
        },
        _ => incoming,
    }
}

/// Merges the entries of `update`, in order, onto `base`: each key's new value is the
/// deep merge of its value in `update` onto its value so far.
pub open spec fn merge_entries(
    base: Seq<(Seq<char>, Json)>,
    update: Seq<(Seq<char>, Json)>,
) -> Seq<(Seq<char>, Json)>
    decreases update,
{
    if update.len() == 0 {
        base
    } else {
        let prev = merge_entries(base, update.drop_last());
        let last = update[update.len() - 1];
        map_insert(prev, last.0, deep_merge(map_get(prev, last.0), last.1))
    }
}

// ---------------------------------------------------------------------------
// Navigating

/// Walks `node` down `segments`, creating each missing object on the way, and
/// deep-merges `update` onto the object found there. `target` names the whole target
/// for the error of a root that is not an object.
pub open spec fn update_at(
    node: Json,
    segments: Seq<Seq<char>>,
    update: Seq<(Seq<char>, Json)>,
    target: Seq<char>,
) -> std::result::Result<Json, OverlayFault>
    decreases segments.len(),
{
    match node {
        Json::Object(e) => if segments.len() == 0 {
            Ok(Json::Object(merge_entries(e, update)))
        } else {
            let seg = segments[0];
            let child = match map_get(e, seg) {
                Some(c) => c,
                None => Json::Object(Seq::empty()),
            };
            if child is Object {
                match update_at(child, segments.drop_first(), update, target) {
                    Ok(c) => Ok(Json::Object(map_insert(e, seg, c))),
                    Err(f) => Err(f),
                }
            } else {
                Err(OverlayFault::NotAnObject(seg))
            }
        },
        _ => if segments.len() == 0 {
            Err(OverlayFault::NotAnObject(target))
        } else {
            Err(OverlayFault::NotAnObject(segments[0]))
        },
    }
}

/// Walks `node` down `parents` without creating anything and removes `key` from the
/// object found there. A missing parent leaves the node as it is.
pub open spec fn remove_at(node: Json, parents: Seq<Seq<char>>, key: Seq<char>) -> std::result::Result<
    Json,
    OverlayFault,
>
    decreases parents.len(),
{
    match node {
        Json::Object(e) => if parents.len() == 0 {
            Ok(Json::Object(map_remove(e, key)))
        } else {
            let seg = parents[0];
            match map_get(e, seg) {
                None => Ok(node),
                Some(child) => if child is Object {
                    match remove_at(child, parents.drop_first(), key) {
                        Ok(c) => Ok(Json::Object(map_insert(e, seg, c))),
                        Err(f) => Err(f),
                    }
                } else {
                    Err(OverlayFault::NotAnObject(seg))
                },
            }
        },
        _ => if parents.len() == 0 {
            Ok(node)
        } else {
            Err(OverlayFault::NotAnObject(parents[0]))
        },
    }
}

// ---------------------------------------------------------------------------
// Applying

/// The outcome of one action on a document.
pub open spec fn apply_action(doc: Json, action: ActionModel) -> std::result::Result<Json, OverlayFault> {
    match target_segments(action.target) {
        Err(f) => Err(f),
        Ok(segments) => if action.remove == Some(true) {
            if segments.len() == 0 {
                Err(OverlayFault::RemovesRoot)
            } else {
                remove_at(doc, segments.drop_last(), segments.last())
            }
        } else {
            match action.update {
                Some(u) => update_at(doc, segments, u, action.target),
                None => Ok(doc),
            }
        },
    }
}

/// The outcome of the actions, in order, on a document; the first failure ends it.
pub open spec fn apply_actions(doc: Json, actions: Seq<ActionModel>) -> std::result::Result<
    Json,
    OverlayFault,
>
    decreases actions.len(),
{
    if actions.len() == 0 {
        Ok(doc)
    } else {
        match apply_actions(doc, actions.drop_last()) {
            Ok(d) => apply_action(d, actions.last()),
            Err(f) => Err(f),
        }
    }
}

/// `r` is the outcome `m`.
pub open spec fn outcome_is(r: Result<JsonValue>, m: std::result::Result<Json, OverlayFault>) -> bool {
    match m {
        Ok(j) => r matches Ok(v) && v@ == j,
        Err(f) => r matches Err(e) && reports(e, f),
    }
}

// ---------------------------------------------------------------------------
// Targets

/// A character that may stand in a dotted key: anything but `.`, `[`, `]` and the
/// wildcard `*`.
pub open spec fn is_name_char(c: char) -> bool {
    c != '.' && c != '[' && c != ']' && c != '*'
}

/// The number of characters at the start of `s` that may stand in a dotted key.
pub open spec fn name_len(s: Seq<char>) -> nat
    decreases s.len(),
{
    if s.len() == 0 || !is_name_char(s[0]) {
        0
    } else {
        1 + name_len(s.drop_first())
    }
}

/// The number of characters at the start of `s` before the first `quote`.
pub open spec fn quoted_len(s: Seq<char>, quote: char) -> nat
    decreases s.len(),
{
    if s.len() == 0 || s[0] == quote {
        0
    } else {
        1 + quoted_len(s.drop_first(), quote)
    }
}

/// A quote that may open a bracketed key.
pub open spec fn is_quote(c: char) -> bool {
    c == '\'' || c == '"'
}

/// `key` followed by the keys of `rest`, if `rest` has keys.
pub open spec fn prepend(key: Seq<char>, rest: Option<Seq<Seq<char>>>) -> Option<Seq<Seq<char>>> {
    match rest {
        Some(r) => Some(seq![key] + r),
        None => None,
    }
}

/// A dotted key runs over name characters up to the first other character.
pub proof fn lemma_name_len(s: Seq<char>)
    ensures
        name_len(s) <= s.len(),
        forall|i: int| 0 <= i < name_len(s) ==> is_name_char(#[trigger] s[i]),
        name_len(s) < s.len() ==> !is_name_char(s[name_len(s) as int]),
    decreases s.len(),
{
    if s.len() > 0 && is_name_char(s[0]) {
        lemma_name_len(s.drop_first());
        assert forall|i: int| 0 <= i < name_len(s) implies is_name_char(#[trigger] s[i]) by {
            if i > 0 {
                assert(s[i] == s.drop_first()[i - 1]);
            }
        }
    }
}

/// A quoted key runs up to the first closing quote.
pub proof fn lemma_quoted_len(s: Seq<char>, quote: char)
    ensures
        quoted_len(s, quote) <= s.len(),
        forall|i: int| 0 <= i < quoted_len(s, quote) ==> #[trigger] s[i] != quote,
        quoted_len(s, quote) < s.len() ==> s[quoted_len(s, quote) as int] == quote,
    decreases s.len(),
{
    if s.len() > 0 && s[0] != quote {
        lemma_quoted_len(s.drop_first(), quote);
        assert forall|i: int| 0 <= i < quoted_len(s, quote) implies #[trigger] s[i] != quote by {
            if i > 0 {
                assert(s[i] == s.drop_first()[i - 1]);
            }
        }
    }
}

/// The keys that the rest of a target (what follows its `$`) walks down, or `None`
/// when it is not a sequence of `.key` and `['key']` / `["key"]` steps. A dotted key
/// runs up to the next `.` or `[` and holds no `]` or `*`; a bracketed key is quoted,
/// runs up to its closing quote, and is followed by `]`.
pub open spec fn steps(s: Seq<char>) -> Option<Seq<Seq<char>>>
    decreases s.len(),
{
    if s.len() == 0 {
        Some(Seq::empty())
    } else if s[0] == '.' {
        let body = s.drop_first();
        let n = name_len(body);
        let rest = body.skip(n as int);
        proof {
            lemma_name_len(body);
        }
        if rest.len() > 0 && (rest[0] == ']' || rest[0] == '*') {
            None
        } else {
            prepend(body.take(n as int), steps(rest))
        }
    } else if s[0] == '[' && s.len() >= 2 && is_quote(s[1]) {
        let body = s.skip(2);
        let n = quoted_len(body, s[1]);
        let after = body.skip(n as int);
        proof {
            lemma_quoted_len(body, s[1]);
        }
        if after.len() >= 2 && after[1] == ']' {
            prepend(body.take(n as int), steps(after.skip(2)))
        } else {
            None
        }
    } else {
        None
    }
}

/// The object keys that a target walks down, or why the target is refused.
pub open spec fn target_segments(t: Seq<char>) -> std::result::Result<Seq<Seq<char>>, OverlayFault> {
    if t.len() >= 1 && t[0] == '$' {
        match steps(t.skip(1)) {
            Some(keys) => Ok(keys),
            None => Err(OverlayFault::UnsupportedTarget(t)),
        }
    } else {
        Err(OverlayFault::UnsupportedTarget(t))
    }
}

/// The keys found so far followed by those of the rest.
pub open spec fn after_keys(found: Seq<Seq<char>>, rest: Option<Seq<Seq<char>>>) -> Option<
    Seq<Seq<char>>,
> {
    match rest {
        Some(r) => Some(found + r),
        None => None,
    }
}

/// Parses the small subset of Overlay JSONPath targets this crate supports: `$` (the
/// document root) followed by dotted keys like `.components` and quoted bracket keys
/// like `['/pets/{petId}']` or `["/pets/{petId}"]`, so that
/// `$.paths['/pets/{petId}'].get` walks `paths`, `/pets/{petId}`, `get`. Wildcards,
/// filters, unquoted bracket keys and unterminated brackets are refused.
pub fn parse_target(target: &str) -> (r: Result<Vec<String>>)
    ensures
        match target_segments(target@) {
            Ok(segments) => r matches Ok(v) && texts(v@) == segments,
            Err(f) => r matches Err(e) && reports(e, f),
        },
{
    let n = target.unicode_len();
    let mut chars: Vec<char> = Vec::new();
    let mut i: usize = 0;
    while i < n
        invariant
            n == target@.len(),
            i <= n,
            chars@ == target@.take(i as int),
        decreases n - i,
    {
        chars.push(target.get_char(i));
        i = i + 1;
        assert(chars@ =~= target@.take(i as int));
    }
    assert(chars@ =~= target@);
    if n == 0 || chars[0] != '$' {
        return Err(Error::UnsupportedOverlayTarget(String::from_str(target)));
    }
    let ghost t = target@;
    let mut segments: Vec<String> = Vec::new();
    let mut i: usize = 1;
    assert(texts(segments@) =~= Seq::<Seq<char>>::empty());
    assert(Seq::<Seq<char>>::empty() + steps(t.skip(1))->Some_0 =~= steps(t.skip(1))->Some_0);
    while i < n
        invariant
            n == chars@.len(),
            chars@ == t,
            t == target@,
            1 <= i <= n,
            steps(t.skip(1)) == after_keys(texts(segments@), steps(t.skip(i as int))),
        decreases n - i,
    {
        let ghost s = t.skip(i as int);
        assert(s[0] == chars@[i as int]);
        if chars[i] == '.' {
            let mut j: usize = i + 1;
            proof {
                lemma_name_len(s.drop_first());
                assert(s.drop_first() =~= t.skip(i as int + 1));
            }
            while j < n && chars[j] != '.' && chars[j] != '[' && chars[j] != ']' && chars[j] != '*'
                invariant
                    n == chars@.len(),
                    chars@ == t,
                    i + 1 <= j <= n,
                    j - (i + 1) <= name_len(s.drop_first()),
                    name_len(s.drop_first()) == (j - (i + 1)) + name_len(t.skip(j as int)),
                decreases n - j,
            {
                assert(t.skip(j as int)[0] == chars@[j as int]);
                assert(t.skip(j as int).drop_first() =~= t.skip(j as int + 1));
                j = j + 1;
            }
            proof {
                if j < n {
                    assert(t.skip(j as int)[0] == chars@[j as int]);
                }
            }
            let ghost body = s.drop_first();
            let ghost k = (j - (i + 1)) as int;
            assert(k == name_len(body));
            assert(body.skip(k) =~= t.skip(j as int));
            assert(body.take(k) =~= t.subrange(i as int + 1, j as int));
            if j < n && (chars[j] == ']' || chars[j] == '*') {
                assert(t.skip(j as int)[0] == chars@[j as int]);
                return Err(Error::UnsupportedOverlayTarget(String::from_str(target)));
            }
            let piece = String::from_str(target.substring_char(i + 1, j));
            let ghost before = texts(segments@);
            segments.push(piece);
            assert(texts(segments@) =~= before.push(piece@));
            proof {
                let rest = steps(t.skip(j as int));
                if rest is Some {
                    assert(before + (seq![piece@] + rest->Some_0) =~= before.push(piece@)
                        + rest->Some_0);
                }
            }
            i = j;
        } else if chars[i] == '[' && i + 1 < n && (chars[i + 1] == '\'' || chars[i + 1] == '"') {
            let q = chars[i + 1];
            assert(s[1] == q);
            let ghost body = s.skip(2);
            assert(body =~= t.skip(i as int + 2));
            proof {
                lemma_quoted_len(body, q);
            }
            let mut j: usize = i + 2;
            while j < n && chars[j] != q
                invariant
                    n == chars@.len(),
                    chars@ == t,
                    i + 2 <= j <= n,
                    quoted_len(body, q) == (j - (i + 2)) + quoted_len(t.skip(j as int), q),
                decreases n - j,
            {
                assert(t.skip(j as int)[0] == chars@[j as int]);
                assert(t.skip(j as int).drop_first() =~= t.skip(j as int + 1));
                j = j + 1;
            }
            proof {
                if j < n {
                    assert(t.skip(j as int)[0] == chars@[j as int]);
                }
            }
            let ghost k = (j - (i + 2)) as int;
            assert(k == quoted_len(body, q));
            let ghost after = body.skip(k);
            assert(after =~= t.skip(j as int));
            assert(body.take(k) =~= t.subrange(i as int + 2, j as int));
            if !(j < n && j + 1 < n && chars[j + 1] == ']') {
                proof {
                    if j + 1 < n {
                        assert(after[1] == chars@[j as int + 1]);
                    }
                }
                return Err(Error::UnsupportedOverlayTarget(String::from_str(target)));
            }
            assert(after[1] == chars@[j as int + 1]);
            assert(after.skip(2) =~= t.skip(j as int + 2));
            let piece = String::from_str(target.substring_char(i + 2, j));
            let ghost before = texts(segments@);
            segments.push(piece);
            assert(texts(segments@) =~= before.push(piece@));
            proof {
                let rest = steps(t.skip(j as int + 2));
                if rest is Some {
                    assert(before + (seq![piece@] + rest->Some_0) =~= before.push(piece@)
                        + rest->Some_0);
                }
            }
            i = j + 2;
        } else {
            proof {
                if chars@[i as int] == '[' && i + 1 < n {
                    assert(s[1] == chars@[i as int + 1]);
                }
            }
            return Err(Error::UnsupportedOverlayTarget(String::from_str(target)));
        }
    }
    assert(t.skip(n as int) =~= Seq::<char>::empty());
    assert(texts(segments@) + Seq::<Seq<char>>::empty() =~= texts(segments@));
    Ok(segments)
}

/// Deep-merges `incoming` onto `existing`, returning a new value.
fn deep_merge_value(existing: Option<&JsonValue>, incoming: &JsonValue) -> (r: JsonValue)
    ensures
        r@ == deep_merge(opt_ref_json(existing), incoming@),
    decreases incoming,
{
    match incoming {
        JsonValue::Object(inc) => match existing {
            Some(JsonValue::Object(ex)) => {
                let mut merged = ex.clone_map();
                merge_into(&mut merged, inc);
                JsonValue::Object(merged)
            },
            _ => incoming.clone_value(),
        },
        _ => incoming.clone_value(),
    }
}

/// Merges each entry of `update`, in order, onto `target`.
#[verifier::loop_isolation(false)]
fn merge_into(target: &mut JsonMap, update: &JsonMap)
    ensures
        final(target)@ == merge_entries(old(target)@, update@),
    decreases update,
{
    proof {
        lemma_entries_of(update.entries@);
    }
    let n = update.entries.len();
    let mut i: usize = 0;
    assert(update@.take(0) =~= Seq::<(Seq<char>, Json)>::empty());
    while i < n
        invariant
            i <= n,
            n == update@.len(),
            target@ == merge_entries(old(target)@, update@.take(i as int)),
        decreases n - i,
    {
        let merged = deep_merge_value(target.get(&update.entries[i].0), &update.entries[i].1);
        target.insert(update.entries[i].0.clone(), merged);
        assert(update@.take(i as int + 1).drop_last() =~= update@.take(i as int));
        i = i + 1;
    }
    assert(update@.take(n as int) =~= update@);
}


/// Takes the entry at `p` out of `obj`, leaving a null in its place.
fn take_entry(obj: &mut JsonMap, p: usize) -> (entry: (String, JsonValue))
    requires
        p < old(obj)@.len(),
    ensures
        final(obj).entries@ == old(obj).entries@.update(p as int, final(obj).entries@[p as int]),
        final(obj).entries@.len() == old(obj).entries@.len(),
        entry == old(obj).entries@[p as int],
{
    proof {
        lemma_entries_of(obj.entries@);
    }
    let mut slot = (String::new(), JsonValue::Null);
    obj.entries.set_and_swap(p, &mut slot);
    slot
}

/// Puts `entry` back at `p`, where `take_entry` left a placeholder.
proof fn lemma_put_back(
    before: Seq<(String, JsonValue)>,
    after: Seq<(String, JsonValue)>,
    p: int,
    key: String,
    value: JsonValue,
)
    requires
        0 <= p < before.len(),
        before[p].0@ == key@,
        after == before.update(p, (key, value)),
    ensures
        entries_of(after) == entries_of(before).update(p, (key@, value@)),
        key_position(entries_of(before), key@) == p ==> entries_of(after) == map_insert(
            entries_of(before),
            key@,
            value@,
        ),
{
    lemma_entries_of(before);
    lemma_entries_of(after);
    assert(entries_of(after) =~= entries_of(before).update(p, (key@, value@)));
}

/// Walks `node` down `segments[depth..]`, creating missing objects, and merges `update`
/// onto the object found there.
fn update_target(
    node: JsonValue,
    segments: &Vec<String>,
    depth: usize,
    update: &JsonMap,
    target: &String,
) -> (r: Result<JsonValue>)
    requires
        depth <= segments@.len(),
    ensures
        outcome_is(r, update_at(node@, texts(segments@).skip(depth as int), update@, target@)),
    decreases segments@.len() - depth,
{
    let ghost segs = texts(segments@).skip(depth as int);
    let ghost before = node@;
    match node {
        JsonValue::Object(mut obj) => {
            if depth == segments.len() {
                merge_into(&mut obj, update);
                return Ok(JsonValue::Object(obj));
            }
            let seg = &segments[depth];
            assert(segs[0] == seg@);
            assert(segs.drop_first() =~= texts(segments@).skip(depth as int + 1));
            match obj.position(seg) {
                Some(p) => {
                    proof {
                        lemma_entries_of(obj.entries@);
                        lemma_key_position(obj@, seg@);
                    }
                    let ghost e0 = obj.entries@;
                    let (key, child) = take_entry(&mut obj, p);
                    if !child.is_object() {
                        return Err(Error::OverlayTargetNotAnObject(seg.clone()));
                    }
                    match update_target(child, segments, depth + 1, update, target) {
                        Ok(c) => {
                            let ghost cc = c;
                            let ghost kk = key;
                            obj.entries.set(p, (key, c));
                            proof {
                                assert(obj.entries@ =~= e0.update(p as int, (kk, cc)));
                                lemma_put_back(e0, obj.entries@, p as int, kk, cc);
                            }
                            Ok(JsonValue::Object(obj))
                        },
                        Err(e) => Err(e),
                    }
                },
                None => {
                    let child = JsonValue::Object(JsonMap::new());
                    assert(child@ == Json::Object(Seq::empty())) by {
                        assert(entries_of(Seq::<(String, JsonValue)>::empty()) =~= Seq::empty());
                    }
                    match update_target(child, segments, depth + 1, update, target) {
                        Ok(c) => {
                            obj.insert(seg.clone(), c);
                            Ok(JsonValue::Object(obj))
                        },
                        Err(e) => Err(e),
                    }
                },
            }
        },
        _ => {
            if depth == segments.len() {
                Err(Error::OverlayTargetNotAnObject(target.clone()))
            } else {
                Err(Error::OverlayTargetNotAnObject(segments[depth].clone()))
            }
        },
    }
}


/// Walks `node` down `segments[depth..limit]` without creating anything and removes
/// `key` from the object found there.
fn remove_target(
    node: JsonValue,
    segments: &Vec<String>,
    depth: usize,
    limit: usize,
    key: &String,
) -> (r: Result<JsonValue>)
    requires
        depth <= limit <= segments@.len(),
    ensures
        outcome_is(r, remove_at(node@, texts(segments@).subrange(depth as int, limit as int), key@)),
    decreases limit - depth,
{
    let ghost parents = texts(segments@).subrange(depth as int, limit as int);
    match node {
        JsonValue::Object(mut obj) => {
            if depth == limit {
                obj.shift_remove(key);
                return Ok(JsonValue::Object(obj));
            }
            let seg = &segments[depth];
            assert(parents[0] == seg@);
            assert(parents.drop_first() =~= texts(segments@).subrange(depth as int + 1, limit as int));
            match obj.position(seg) {
                Some(p) => {
                    proof {
                        lemma_entries_of(obj.entries@);
                        lemma_key_position(obj@, seg@);
                    }
                    let ghost e0 = obj.entries@;
                    let (k, child) = take_entry(&mut obj, p);
                    if !child.is_object() {
                        return Err(Error::OverlayTargetNotAnObject(seg.clone()));
                    }
                    match remove_target(child, segments, depth + 1, limit, key) {
                        Ok(c) => {
                            let ghost cc = c;
                            let ghost kk = k;
                            obj.entries.set(p, (k, c));
                            proof {
                                assert(obj.entries@ =~= e0.update(p as int, (kk, cc)));
                                lemma_put_back(e0, obj.entries@, p as int, kk, cc);
                            }
                            Ok(JsonValue::Object(obj))
                        },
                        Err(e) => Err(e),
                    }
                },
                None => Ok(JsonValue::Object(obj)),
            }
        },
        other => {
            if depth == limit {
                Ok(other)
            } else {
                Err(Error::OverlayTargetNotAnObject(segments[depth].clone()))
            }
        },
    }
}

/// Applies one action to `doc`.
fn apply_action_to(doc: JsonValue, action: &OverlayAction) -> (r: Result<JsonValue>)
    ensures
        outcome_is(r, apply_action(doc@, action@)),
{
    let segments = match parse_target(action.target.as_str()) {
        Ok(s) => s,
        Err(e) => return Err(e),
    };
    let remove = match action.remove {
        Some(true) => true,
        _ => false,
    };
    if remove {
        let n = segments.len();
        if n == 0 {
            return Err(Error::OverlayRemovesRoot);
        }
        let key = &segments[n - 1];
        proof {
            let t = texts(segments@);
            assert(t.subrange(0, n - 1) =~= t.drop_last());
            assert(t.last() == key@);
        }
        remove_target(doc, &segments, 0, n - 1, key)
    } else {
        match &action.update {
            Some(u) => {
                assert(texts(segments@).skip(0) =~= texts(segments@));
                update_target(doc, &segments, 0, u, &action.target)
            },
            None => Ok(doc),
        }
    }
}

/// Applies an overlay to a document, returning a new document.
///
/// Supports `update` (deep-merged onto the target) and `remove` actions.
pub fn apply_overlay(document: &JsonValue, overlay: &OverlayDocument) -> (r: Result<JsonValue>)
    ensures
        outcome_is(r, apply_actions(document@, actions_of(*overlay))),
        well_formed(document@) && (forall|i: int|
            0 <= i < overlay.actions@.len() ==> update_well_formed(#[trigger] overlay.actions@[i]@))
            ==> (r matches Ok(v) ==> well_formed(v@)),
{
    let mut result = document.clone_value();
    let n = overlay.actions.len();
    let ghost actions = actions_of(*overlay);
    let mut i: usize = 0;
    assert(actions.take(0) =~= Seq::<ActionModel>::empty());
    while i < n
        invariant
            i <= n,
            n == overlay.actions@.len(),
            actions == actions_of(*overlay),
            apply_actions(document@, actions.take(i as int)) == Ok::<Json, OverlayFault>(result@),
        decreases n - i,
    {
        assert(actions.take(i as int + 1).drop_last() =~= actions.take(i as int));
        assert(actions.take(i as int + 1).last() == overlay.actions@[i as int]@);
        match apply_action_to(result, &overlay.actions[i]) {
            Ok(next) => {
                result = next;
            },
            Err(e) => {
                proof {
                    lemma_apply_actions_stops(document@, actions, i as int + 1);
                }
                return Err(e);
            },
        }
        i = i + 1;
    }
    assert(actions.take(n as int) =~= actions);
    proof {
        if well_formed(document@) && (forall|i: int|
            0 <= i < overlay.actions@.len() ==> update_well_formed(#[trigger] overlay.actions@[i]@)) {
            assert forall|i: int| 0 <= i < actions.len() implies update_well_formed(#[trigger] actions[i]) by {
                assert(actions[i] == overlay.actions@[i]@);
            }
            actions_keep_well_formed(document@, actions);
        }
    }
    Ok(result)
}

/// Once an action fails, every longer run of actions fails the same way.
proof fn lemma_apply_actions_stops(doc: Json, actions: Seq<ActionModel>, k: int)
    requires
        0 <= k <= actions.len(),
        apply_actions(doc, actions.take(k)) is Err,
    ensures
        apply_actions(doc, actions) == apply_actions(doc, actions.take(k)),
    decreases actions.len() - k,
{
    if k < actions.len() {
        assert(actions.take(k + 1).drop_last() =~= actions.take(k));
        lemma_apply_actions_stops(doc, actions, k + 1);
    } else {
        assert(actions.take(k) =~= actions);
    }
}

} // verus!
