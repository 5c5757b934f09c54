//! What holds of every overlay application.

use crate::json::{
    has_key, keys_distinct, lemma_distinct_kept, lemma_get_after_insert, lemma_get_after_remove,
    is_first_key, key_position, lemma_first_key_unique, lemma_key_position, map_get, map_insert, map_remove, Json,
};
use crate::openapi::overlay::{
    apply_action, apply_actions, deep_merge, is_name_char, merge_entries, name_len, quoted_len,
    is_quote, lemma_name_len, lemma_quoted_len, remove_at, steps, target_segments, update_at,
    ActionModel, OverlayFault,
};
use vstd::prelude::*;

verus! {

/// The value reached by walking `path` down from `j`, if every step finds an object
/// with that key.
pub open spec fn get_path(j: Json, path: Seq<Seq<char>>) -> Option<Json>
    decreases path.len(),
{
    if path.len() == 0 {
        Some(j)
    } else {
        match j {
            Json::Object(e) => match map_get(e, path[0]) {
                Some(c) => get_path(c, path.drop_first()),
                None => None,
            },
            _ => None,
        }
    }
}

/// The entries of the object at `path`, or none when there is no object there.
pub open spec fn entries_at(j: Json, path: Seq<Seq<char>>) -> Seq<(Seq<char>, Json)> {
    match get_path(j, path) {
        Some(Json::Object(e)) => e,
        _ => Seq::empty(),
    }
}

/// The target text that walks `keys` as single-quoted bracket steps.
pub open spec fn bracketed(keys: Seq<Seq<char>>) -> Seq<char>
    decreases keys.len(),
{
    if keys.len() == 0 {
        Seq::empty()
    } else {
        seq!['[', '\''] + keys[0] + seq!['\'', ']'] + bracketed(keys.drop_first())
    }
}

/// The target text that walks `keys` as dotted steps.
pub open spec fn dotted(keys: Seq<Seq<char>>) -> Seq<char>
    decreases keys.len(),
{
    if keys.len() == 0 {
        Seq::empty()
    } else {
        seq!['.'] + keys[0] + dotted(keys.drop_first())
    }
}

proof fn lemma_quoted_len_of(key: Seq<char>, rest: Seq<char>, quote: char)
    requires
        !key.contains(quote),
        rest.len() > 0,
        rest[0] == quote,
    ensures
        quoted_len(key + rest, quote) == key.len(),
    decreases key.len(),
{
    if key.len() > 0 {
        assert(key[0] != quote);
        assert((key + rest).drop_first() =~= key.drop_first() + rest);
        assert(!key.drop_first().contains(quote)) by {
            if key.drop_first().contains(quote) {
                let i = choose|i: int| 0 <= i < key.drop_first().len() && key.drop_first()[i] == quote;
                assert(key[i + 1] == quote);
            }
        }
        lemma_quoted_len_of(key.drop_first(), rest, quote);
    } else {
        assert(key + rest =~= rest);
    }
}

proof fn lemma_name_len_of(key: Seq<char>, rest: Seq<char>)
    requires
        forall|i: int| 0 <= i < key.len() ==> is_name_char(#[trigger] key[i]),
        rest.len() > 0 ==> !is_name_char(rest[0]),
    ensures
        name_len(key + rest) == key.len(),
    decreases key.len(),
{
    if key.len() > 0 {
        assert(is_name_char(key[0]));
        assert((key + rest).drop_first() =~= key.drop_first() + rest);
        assert forall|i: int| 0 <= i < key.drop_first().len() implies is_name_char(
            #[trigger] key.drop_first()[i],
        ) by {
            assert(key.drop_first()[i] == key[i + 1]);
        }
        lemma_name_len_of(key.drop_first(), rest);
    } else {
        assert(key + rest =~= rest);
    }
}

proof fn lemma_steps_bracketed(keys: Seq<Seq<char>>)
    requires
        forall|i: int| 0 <= i < keys.len() ==> !(#[trigger] keys[i]).contains('\''),
    ensures
        steps(bracketed(keys)) == Some(keys),
    decreases keys.len(),
{
    if keys.len() > 0 {
        let k = keys[0];
        let tail = keys.drop_first();
        assert forall|i: int| 0 <= i < tail.len() implies !(#[trigger] tail[i]).contains('\'') by {
            assert(tail[i] == keys[i + 1]);
        }
        lemma_steps_bracketed(tail);
        let s = bracketed(keys);
        let close = seq!['\'', ']'] + bracketed(tail);
        assert(s =~= seq!['[', '\''] + (k + close));
        assert(s.skip(2) =~= k + close);
        lemma_quoted_len_of(k, close, '\'');
        assert((k + close).skip(k.len() as int) =~= close);
        assert((k + close).take(k.len() as int) =~= k);
        assert(close.skip(2) =~= bracketed(tail));
        assert(seq![k] + tail =~= keys);
    } else {
        assert(bracketed(keys) =~= Seq::<char>::empty());
        assert(keys =~= Seq::<Seq<char>>::empty());
    }
}

proof fn lemma_steps_dotted(keys: Seq<Seq<char>>)
    requires
        forall|i: int, j: int|
            0 <= i < keys.len() && 0 <= j < keys[i].len() ==> is_name_char(#[trigger] keys[i][j]),
    ensures
        steps(dotted(keys)) == Some(keys),
    decreases keys.len(),
{
    if keys.len() > 0 {
        let k = keys[0];
        let tail = keys.drop_first();
        assert forall|i: int, j: int|
            0 <= i < tail.len() && 0 <= j < tail[i].len() implies is_name_char(
            #[trigger] tail[i][j],
        ) by {
            assert(tail[i] == keys[i + 1]);
        }
        lemma_steps_dotted(tail);
        let s = dotted(keys);
        let rest = dotted(tail);
        assert(s =~= seq!['.'] + (k + rest));
        assert(s.drop_first() =~= k + rest);
        assert forall|j: int| 0 <= j < k.len() implies is_name_char(#[trigger] k[j]) by {
            assert(keys[0][j] == k[j]);
        }
        if rest.len() > 0 {
            assert(rest[0] == '.');
        }
        lemma_name_len_of(k, rest);
        assert((k + rest).skip(k.len() as int) =~= rest);
        assert((k + rest).take(k.len() as int) =~= k);
        assert(seq![k] + tail =~= keys);
    } else {
        assert(dotted(keys) =~= Seq::<char>::empty());
        assert(keys =~= Seq::<Seq<char>>::empty());
    }
}

proof fn lemma_steps_nonempty(s: Seq<char>)
    requires
        s.len() > 0,
    ensures
        steps(s) matches Some(keys) ==> keys.len() > 0,
{
}

/// `$` alone is the only accepted target that walks no keys, and a target that is
/// accepted starts with `$`.
pub proof fn only_the_root_walks_no_keys(t: Seq<char>)
    ensures
        target_segments(t) is Ok ==> t.len() >= 1 && t[0] == '$',
        target_segments(t) is Ok ==> (target_segments(t)->Ok_0.len() == 0 <==> t == seq!['$']),
{
    if t.len() >= 1 && t[0] == '$' {
        if t.len() > 1 {
            lemma_steps_nonempty(t.skip(1));
            assert(t != seq!['$']);
        } else {
            assert(t.skip(1) =~= Seq::<char>::empty());
            assert(t =~= seq!['$']);
        }
    }
}

/// Writing keys free of single quotes as bracket steps after `$` (`$['a']['b']`) and
/// parsing the target gives the keys back.
pub proof fn bracketed_keys_read_back(keys: Seq<Seq<char>>)
    requires
        forall|i: int| 0 <= i < keys.len() ==> !(#[trigger] keys[i]).contains('\''),
    ensures
        target_segments(seq!['$'] + bracketed(keys)) == Ok::<Seq<Seq<char>>, OverlayFault>(keys),
{
    lemma_steps_bracketed(keys);
    assert((seq!['$'] + bracketed(keys)).skip(1) =~= bracketed(keys));
}

/// Writing keys made of characters other than `.`, `[`, `]` and `*` as dotted steps
/// after `$` (`$.a.b`) and parsing the target gives the keys back.
pub proof fn dotted_keys_read_back(keys: Seq<Seq<char>>)
    requires
        forall|i: int, j: int|
            0 <= i < keys.len() && 0 <= j < keys[i].len() ==> is_name_char(#[trigger] keys[i][j]),
    ensures
        target_segments(seq!['$'] + dotted(keys)) == Ok::<Seq<Seq<char>>, OverlayFault>(keys),
{
    lemma_steps_dotted(keys);
    assert((seq!['$'] + dotted(keys)).skip(1) =~= dotted(keys));
}

/// Deep-merging an update onto an object: a key of the update reads as the deep merge
/// of its update value onto its old value, and every other key keeps its old value.
pub proof fn merge_reads_back(
    base: Seq<(Seq<char>, Json)>,
    update: Seq<(Seq<char>, Json)>,
    k: Seq<char>,
)
    requires
        keys_distinct(update),
    ensures
        map_get(merge_entries(base, update), k) == match map_get(update, k) {
            Some(v) => Some(deep_merge(map_get(base, k), v)),
            None => map_get(base, k),
        },
    decreases update.len(),
{
    if update.len() > 0 {
        let rest = update.drop_last();
        let last = update[update.len() - 1];
        let prev = merge_entries(base, rest);
        assert(keys_distinct(rest));
        merge_reads_back(base, rest, k);
        lemma_get_after_insert(prev, last.0, deep_merge(map_get(prev, last.0), last.1), k);
        assert(update =~= rest.push(last));
        lemma_get_after_insert(rest, last.0, last.1, k);
        lemma_key_position(rest, last.0);
        assert(!has_key(rest, last.0)) by {
            if has_key(rest, last.0) {
                let i = choose|i: int| 0 <= i < rest.len() && rest[i].0 == last.0;
                assert(update[i].0 == update[update.len() - 1].0);
            }
        }
        assert(map_insert(rest, last.0, last.1) == update);
        if k == last.0 {
            merge_reads_back(base, rest, last.0);
        }
    }
}

/// Deep-merging never drops a key that was there.
pub proof fn merge_keeps_keys(
    base: Seq<(Seq<char>, Json)>,
    update: Seq<(Seq<char>, Json)>,
    k: Seq<char>,
)
    requires
        has_key(base, k),
    ensures
        has_key(merge_entries(base, update), k),
    decreases update.len(),
{
    if update.len() > 0 {
        let rest = update.drop_last();
        let last = update[update.len() - 1];
        let prev = merge_entries(base, rest);
        merge_keeps_keys(base, rest, k);
        let v = deep_merge(map_get(prev, last.0), last.1);
        lemma_get_after_insert(prev, last.0, v, k);
        lemma_key_position(prev, k);
        lemma_key_position(map_insert(prev, last.0, v), k);
    }
}

/// Deep-merging keeps the keys that were there in their places; new keys follow them.
pub proof fn merge_keeps_order(base: Seq<(Seq<char>, Json)>, update: Seq<(Seq<char>, Json)>)
    ensures
        merge_entries(base, update).len() >= base.len(),
        forall|i: int| 0 <= i < base.len() ==> (#[trigger] merge_entries(base, update)[i]).0 == base[i].0,
    decreases update.len(),
{
    if update.len() > 0 {
        let rest = update.drop_last();
        let last = update[update.len() - 1];
        let prev = merge_entries(base, rest);
        merge_keeps_order(base, rest);
        lemma_key_position(prev, last.0);
        let v = deep_merge(map_get(prev, last.0), last.1);
        let next = map_insert(prev, last.0, v);
        assert forall|i: int| 0 <= i < base.len() implies (#[trigger] next[i]).0 == base[i].0 by {
            assert(prev[i].0 == base[i].0);
        }
    }
}

/// Merging keys that are all new appends them, in the update's order, after the
/// entries that were there.
pub proof fn merge_of_new_keys_appends(base: Seq<(Seq<char>, Json)>, update: Seq<(Seq<char>, Json)>)
    requires
        keys_distinct(update),
        forall|k: Seq<char>| has_key(update, k) ==> !has_key(base, k),
    ensures
        merge_entries(base, update) == base + update,
    decreases update.len(),
{
    if update.len() > 0 {
        let rest = update.drop_last();
        let last = update[update.len() - 1];
        assert forall|k: Seq<char>| has_key(rest, k) implies !has_key(base, k) by {
            let i = choose|i: int| 0 <= i < rest.len() && rest[i].0 == k;
            assert(update[i].0 == k);
        }
        merge_of_new_keys_appends(base, rest);
        let prev = base + rest;
        assert(!has_key(prev, last.0)) by {
            if has_key(prev, last.0) {
                let i = choose|i: int| 0 <= i < prev.len() && prev[i].0 == last.0;
                if i < base.len() {
                    assert(has_key(update, last.0));
                    assert(base[i].0 == last.0);
                } else {
                    assert(update[i - base.len()].0 == update[update.len() - 1].0);
                }
            }
        }
        lemma_key_position(prev, last.0);
        assert(map_get(prev, last.0) is None);
        assert(deep_merge(None, last.1) == last.1);
        assert(map_insert(prev, last.0, last.1) == prev.push((last.0, last.1)));
        assert((last.0, last.1) == last);
        assert(update =~= rest.push(last));
        assert(prev.push(last) =~= base + update);
    } else {
        assert(base + update =~= base);
    }
}

proof fn lemma_empty_object_entries(path: Seq<Seq<char>>)
    ensures
        entries_at(Json::Object(Seq::empty()), path) == Seq::<(Seq<char>, Json)>::empty(),
{
    lemma_key_position(Seq::<(Seq<char>, Json)>::empty(), if path.len() > 0 {
        path[0]
    } else {
        Seq::empty()
    });
}

/// An update lands at its target: afterwards the target is an object, namely the old
/// object there (or a new empty one where there was none) with the update deep-merged
/// onto it.
pub proof fn update_lands_at_target(
    node: Json,
    segments: Seq<Seq<char>>,
    update: Seq<(Seq<char>, Json)>,
    target: Seq<char>,
)
    requires
        update_at(node, segments, update, target) is Ok,
    ensures
        get_path(update_at(node, segments, update, target)->Ok_0, segments) == Some(
            Json::Object(merge_entries(entries_at(node, segments), update)),
        ),
    decreases segments.len(),
{
    if segments.len() > 0 {
        let e = node->Object_0;
        let seg = segments[0];
        let rest = segments.drop_first();
        let child = match map_get(e, seg) {
            Some(c) => c,
            None => Json::Object(Seq::empty()),
        };
        update_lands_at_target(child, rest, update, target);
        let c = update_at(child, rest, update, target)->Ok_0;
        lemma_get_after_insert(e, seg, c, seg);
        if map_get(e, seg) is None {
            lemma_empty_object_entries(rest);
        }
    }
}

/// A removal deletes exactly its target: for a parent object whose keys are distinct,
/// the removed key no longer reads, and every other key of the parent reads as before.
pub proof fn remove_deletes_target(
    node: Json,
    parents: Seq<Seq<char>>,
    key: Seq<char>,
    other: Seq<char>,
)
    requires
        remove_at(node, parents, key) is Ok,
        get_path(node, parents) matches Some(Json::Object(e)) ==> keys_distinct(e),
    ensures
        get_path(remove_at(node, parents, key)->Ok_0, parents.push(key)) is None,
        other != key ==> get_path(remove_at(node, parents, key)->Ok_0, parents.push(other))
            == get_path(node, parents.push(other)),
    decreases parents.len(),
{
    let r = remove_at(node, parents, key)->Ok_0;
    if parents.len() == 0 {
        assert(parents.push(key).drop_first() =~= Seq::<Seq<char>>::empty());
        assert(parents.push(other).drop_first() =~= Seq::<Seq<char>>::empty());
        match node {
            Json::Object(e) => {
                lemma_get_after_remove(e, key, other);
            },
            _ => {},
        }
    } else {
        let e = node->Object_0;
        let seg = parents[0];
        let rest = parents.drop_first();
        assert(parents.push(key).drop_first() =~= rest.push(key));
        assert(parents.push(other).drop_first() =~= rest.push(other));
        assert(parents.push(key)[0] == seg);
        assert(parents.push(other)[0] == seg);
        match map_get(e, seg) {
            None => {},
            Some(child) => {
                remove_deletes_target(child, rest, key, other);
                let c = remove_at(child, rest, key)->Ok_0;
                lemma_get_after_insert(e, seg, c, seg);
            },
        }
    }
}

/// Applying actions one run after another is applying them all in order: the second
/// run starts from what the first produced, and a failure in the first ends it all.
pub proof fn actions_compose(doc: Json, first: Seq<ActionModel>, second: Seq<ActionModel>)
    ensures
        apply_actions(doc, first + second) == match apply_actions(doc, first) {
            Ok(d) => apply_actions(d, second),
            Err(f) => Err::<Json, OverlayFault>(f),
        },
    decreases second.len(),
{
    if second.len() == 0 {
        assert(first + second =~= first);
    } else {
        actions_compose(doc, first, second.drop_last());
        assert((first + second).drop_last() =~= first + second.drop_last());
        assert((first + second).last() == second.last());
    }
}

/// An overlay without actions gives back the document unchanged.
pub proof fn no_actions_change_nothing(doc: Json)
    ensures
        apply_actions(doc, Seq::empty()) == Ok::<Json, OverlayFault>(doc),
{
}


// ---------------------------------------------------------------------------
// Distinct keys everywhere

/// Every object in `j`, at any depth, has distinct keys.
pub open spec fn well_formed(j: Json) -> bool
    decreases j,
{
    match j {
        Json::Array(a) => all_well_formed(a),
        Json::Object(e) => keys_distinct(e) && entries_well_formed(e),
        _ => true,
    }
}

/// Every value of `s` is well formed.
pub open spec fn all_well_formed(s: Seq<Json>) -> bool
    decreases s,
{
    if s.len() == 0 {
        true
    } else {
        all_well_formed(s.drop_last()) && well_formed(s[s.len() - 1])
    }
}

/// Every value stored in `s` is well formed.
pub open spec fn entries_well_formed(s: Seq<(Seq<char>, Json)>) -> bool
    decreases s,
{
    if s.len() == 0 {
        true
    } else {
        entries_well_formed(s.drop_last()) && well_formed(s[s.len() - 1].1)
    }
}

proof fn lemma_entries_well_formed(s: Seq<(Seq<char>, Json)>)
    ensures
        entries_well_formed(s) <==> forall|i: int|
            0 <= i < s.len() ==> well_formed(#[trigger] s[i].1),
    decreases s.len(),
{
    if s.len() > 0 {
        lemma_entries_well_formed(s.drop_last());
        if entries_well_formed(s) {
            assert forall|i: int| 0 <= i < s.len() implies well_formed(#[trigger] s[i].1) by {
                if i < s.len() - 1 {
                    assert(s.drop_last()[i] == s[i]);
                }
            }
        }
        if forall|i: int| 0 <= i < s.len() ==> well_formed(#[trigger] s[i].1) {
            assert forall|i: int| 0 <= i < s.drop_last().len() implies well_formed(
                #[trigger] s.drop_last()[i].1,
            ) by {
                assert(s.drop_last()[i] == s[i]);
            }
        }
    }
}

/// Storing a well-formed value, or removing one, keeps entries well formed; a value read
/// from well-formed entries is well formed.
proof fn lemma_entries_ops_well_formed(e: Seq<(Seq<char>, Json)>, k: Seq<char>, v: Json)
    requires
        keys_distinct(e),
        entries_well_formed(e),
    ensures
        well_formed(v) ==> keys_distinct(map_insert(e, k, v)) && entries_well_formed(
            map_insert(e, k, v),
        ),
        keys_distinct(map_remove(e, k)) && entries_well_formed(map_remove(e, k)),
        map_get(e, k) matches Some(c) ==> well_formed(c),
{
    lemma_distinct_kept(e, k, v);
    lemma_key_position(e, k);
    lemma_entries_well_formed(e);
    lemma_entries_well_formed(map_insert(e, k, v));
    lemma_entries_well_formed(map_remove(e, k));
    let p = key_position(e, k);
    let r = map_remove(e, k);
    if p >= 0 {
        assert forall|i: int| 0 <= i < r.len() implies well_formed(#[trigger] r[i].1) by {
            if i < p {
                assert(r[i] == e[i]);
            } else {
                assert(r[i] == e[i + 1]);
            }
        }
    }
    if well_formed(v) {
        let n = map_insert(e, k, v);
        assert forall|i: int| 0 <= i < n.len() implies well_formed(#[trigger] n[i].1) by {
            if i < e.len() && i != p {
                assert(n[i] == e[i]);
            }
        }
    }
}

/// Deep-merging well-formed values gives a well-formed value.
pub proof fn merge_keeps_well_formed(existing: Option<Json>, incoming: Json)
    requires
        existing matches Some(x) ==> well_formed(x),
        well_formed(incoming),
    ensures
        well_formed(deep_merge(existing, incoming)),
    decreases incoming,
{
    match incoming {
        Json::Object(i) => match existing {
            Some(Json::Object(e)) => {
                merge_entries_keep_well_formed(e, i);
            },
            _ => {},
        },
        _ => {},
    }
}

/// Merging well-formed entries onto well-formed entries with distinct keys keeps them
/// well formed.
pub proof fn merge_entries_keep_well_formed(
    base: Seq<(Seq<char>, Json)>,
    update: Seq<(Seq<char>, Json)>,
)
    requires
        keys_distinct(base),
        entries_well_formed(base),
        entries_well_formed(update),
    ensures
        keys_distinct(merge_entries(base, update)),
        entries_well_formed(merge_entries(base, update)),
    decreases update,
{
    if update.len() > 0 {
        let rest = update.drop_last();
        let last = update[update.len() - 1];
        merge_entries_keep_well_formed(base, rest);
        let prev = merge_entries(base, rest);
        lemma_entries_ops_well_formed(prev, last.0, last.1);
        merge_keeps_well_formed(map_get(prev, last.0), last.1);
        lemma_entries_ops_well_formed(prev, last.0, deep_merge(map_get(prev, last.0), last.1));
    }
}

/// An update with well-formed entries keeps a well-formed document well formed.
pub proof fn update_keeps_well_formed(
    node: Json,
    segments: Seq<Seq<char>>,
    update: Seq<(Seq<char>, Json)>,
    target: Seq<char>,
)
    requires
        well_formed(node),
        entries_well_formed(update),
        update_at(node, segments, update, target) is Ok,
    ensures
        well_formed(update_at(node, segments, update, target)->Ok_0),
    decreases segments.len(),
{
    let e = node->Object_0;
    if segments.len() == 0 {
        merge_entries_keep_well_formed(e, update);
    } else {
        let seg = segments[0];
        let rest = segments.drop_first();
        lemma_entries_ops_well_formed(e, seg, Json::Null);
        let child = match map_get(e, seg) {
            Some(c) => c,
            None => Json::Object(Seq::empty()),
        };
        assert(well_formed(child)) by {
            if map_get(e, seg) is None {
                assert(keys_distinct(Seq::<(Seq<char>, Json)>::empty()));
            }
        }
        update_keeps_well_formed(child, rest, update, target);
        lemma_entries_ops_well_formed(e, seg, update_at(child, rest, update, target)->Ok_0);
    }
}

/// A removal keeps a well-formed document well formed.
pub proof fn remove_keeps_well_formed(node: Json, parents: Seq<Seq<char>>, key: Seq<char>)
    requires
        well_formed(node),
        remove_at(node, parents, key) is Ok,
    ensures
        well_formed(remove_at(node, parents, key)->Ok_0),
    decreases parents.len(),
{
    match node {
        Json::Object(e) => {
            lemma_entries_ops_well_formed(e, key, Json::Null);
            if parents.len() > 0 {
                let seg = parents[0];
                lemma_entries_ops_well_formed(e, seg, Json::Null);
                match map_get(e, seg) {
                    Some(child) => {
                        remove_keeps_well_formed(child, parents.drop_first(), key);
                        lemma_entries_ops_well_formed(
                            e,
                            seg,
                            remove_at(child, parents.drop_first(), key)->Ok_0,
                        );
                    },
                    None => {},
                }
            }
        },
        _ => {},
    }
}

/// The action's update, if any, is a well-formed object.
pub open spec fn update_well_formed(a: ActionModel) -> bool {
    match a.update {
        Some(u) => well_formed(Json::Object(u)),
        None => true,
    }
}

/// Applying actions whose updates are well formed keeps a well-formed document well
/// formed: no object ever gets two entries under one key.
pub proof fn actions_keep_well_formed(doc: Json, actions: Seq<ActionModel>)
    requires
        well_formed(doc),
        forall|i: int| 0 <= i < actions.len() ==> update_well_formed(#[trigger] actions[i]),
        apply_actions(doc, actions) is Ok,
    ensures
        well_formed(apply_actions(doc, actions)->Ok_0),
    decreases actions.len(),
{
    if actions.len() > 0 {
        let rest = actions.drop_last();
        let a = actions.last();
        assert forall|i: int| 0 <= i < rest.len() implies update_well_formed(#[trigger] rest[i]) by {
            assert(rest[i] == actions[i]);
        }
        assert(actions[actions.len() - 1] == a);
        actions_keep_well_formed(doc, rest);
        let d = apply_actions(doc, rest)->Ok_0;
        match target_segments(a.target) {
            Ok(segments) => {
                if a.remove == Some(true) {
                    if segments.len() > 0 {
                        remove_keeps_well_formed(d, segments.drop_last(), segments.last());
                    }
                } else {
                    match a.update {
                        Some(u) => {
                            update_keeps_well_formed(d, segments, u, a.target);
                        },
                        None => {},
                    }
                }
            },
            Err(_) => {},
        }
    }
}


/// What a path reaches in a well-formed value is well formed.
pub proof fn path_keeps_well_formed(j: Json, path: Seq<Seq<char>>)
    requires
        well_formed(j),
    ensures
        get_path(j, path) matches Some(x) ==> well_formed(x),
    decreases path.len(),
{
    if path.len() > 0 {
        match j {
            Json::Object(e) => {
                lemma_entries_ops_well_formed(e, path[0], Json::Null);
                match map_get(e, path[0]) {
                    Some(c) => path_keeps_well_formed(c, path.drop_first()),
                    None => {},
                }
            },
            _ => {},
        }
    }
}

/// An update action that succeeds leaves at its target the old object there (or a new
/// empty one) with the update deep-merged onto it.
pub proof fn update_action_lands(doc: Json, action: ActionModel)
    requires
        apply_action(doc, action) is Ok,
        action.remove != Some(true),
        action.update is Some,
    ensures
        target_segments(action.target) matches Ok(segs) && get_path(
            apply_action(doc, action)->Ok_0,
            segs,
        ) == Some(Json::Object(merge_entries(entries_at(doc, segs), action.update->Some_0))),
{
    let segs = target_segments(action.target)->Ok_0;
    update_lands_at_target(doc, segs, action.update->Some_0, action.target);
}

/// A remove action that succeeds on a well-formed document deletes its target and
/// nothing beside it: the target no longer reads, and every sibling reads as before.
pub proof fn remove_action_deletes(doc: Json, action: ActionModel, sibling: Seq<char>)
    requires
        well_formed(doc),
        apply_action(doc, action) is Ok,
        action.remove == Some(true),
    ensures
        target_segments(action.target) matches Ok(segs) && segs.len() > 0 && get_path(
            apply_action(doc, action)->Ok_0,
            segs,
        ) is None && (sibling != segs.last() ==> get_path(
            apply_action(doc, action)->Ok_0,
            segs.drop_last().push(sibling),
        ) == get_path(doc, segs.drop_last().push(sibling))),
{
    let segs = target_segments(action.target)->Ok_0;
    let parents = segs.drop_last();
    path_keeps_well_formed(doc, parents);
    remove_deletes_target(doc, parents, segs.last(), sibling);
    assert(parents.push(segs.last()) =~= segs);
}


// ---------------------------------------------------------------------------
// Merging and applying twice

/// Merging a value onto nothing gives the value.
pub proof fn merge_onto_nothing(x: Json)
    ensures
        deep_merge(None, x) == x,
{
}

/// Merging an empty object onto an object leaves it as it is.
pub proof fn merge_of_empty_object(e: Seq<(Seq<char>, Json)>)
    ensures
        deep_merge(Some(Json::Object(e)), Json::Object(Seq::empty())) == Json::Object(e),
{
}

proof fn lemma_merge_len(m: Seq<(Seq<char>, Json)>, u: Seq<(Seq<char>, Json)>)
    requires
        forall|k: Seq<char>| has_key(u, k) ==> has_key(m, k),
    ensures
        merge_entries(m, u).len() == m.len(),
    decreases u.len(),
{
    if u.len() > 0 {
        let rest = u.drop_last();
        let last = u[u.len() - 1];
        assert forall|k: Seq<char>| has_key(rest, k) implies has_key(m, k) by {
            let i = choose|i: int| 0 <= i < rest.len() && rest[i].0 == k;
            assert(u[i].0 == k);
        }
        lemma_merge_len(m, rest);
        assert(has_key(u, last.0));
        merge_keeps_keys(m, rest, last.0);
        lemma_key_position(merge_entries(m, rest), last.0);
    }
}

/// Merging entries whose keys are all already present, where every key reads as before,
/// leaves the entries as they are.
proof fn lemma_merge_equal_pointwise(m: Seq<(Seq<char>, Json)>, u: Seq<(Seq<char>, Json)>)
    requires
        keys_distinct(m),
        forall|k: Seq<char>| has_key(u, k) ==> has_key(m, k),
        forall|k: Seq<char>| #[trigger] map_get(merge_entries(m, u), k) == map_get(m, k),
    ensures
        merge_entries(m, u) == m,
{
    let r = merge_entries(m, u);
    lemma_merge_len(m, u);
    merge_keeps_order(m, u);
    assert forall|p: int| 0 <= p < m.len() implies r[p] == m[p] by {
        let k = m[p].0;
        assert(is_first_key(m, k, p));
        lemma_first_key_unique(m, k, p);
        assert(is_first_key(r, k, p)) by {
            assert forall|j: int| 0 <= j < p implies r[j].0 != k by {
                assert(r[j].0 == m[j].0);
            }
        }
        lemma_first_key_unique(r, k, p);
        assert(map_get(r, k) == map_get(m, k));
    }
    assert(r =~= m);
}

/// Merging a well-formed value onto itself gives it back.
pub proof fn merge_onto_itself(x: Json)
    requires
        well_formed(x),
    ensures
        deep_merge(Some(x), x) == x,
    decreases x,
{
    match x {
        Json::Object(e) => {
            lemma_entries_well_formed(e);
            assert forall|k: Seq<char>| #[trigger] map_get(merge_entries(e, e), k) == map_get(e, k) by {
                merge_reads_back(e, e, k);
                lemma_key_position(e, k);
                let p = key_position(e, k);
                if p >= 0 {
                    merge_onto_itself(e[p].1);
                }
            }
            lemma_merge_equal_pointwise(e, e);
        },
        _ => {},
    }
}

/// Deep merge is idempotent on well-formed values: merging the same value again onto
/// the result changes nothing.
pub proof fn merge_is_idempotent(existing: Option<Json>, incoming: Json)
    requires
        existing matches Some(x) ==> well_formed(x),
        well_formed(incoming),
    ensures
        deep_merge(Some(deep_merge(existing, incoming)), incoming) == deep_merge(existing, incoming),
    decreases incoming,
{
    match incoming {
        Json::Object(u) => match existing {
            Some(Json::Object(b)) => {
                let m = merge_entries(b, u);
                lemma_entries_well_formed(u);
                merge_entries_keep_well_formed(b, u);
                assert forall|k: Seq<char>| has_key(u, k) implies has_key(m, k) by {
                    merge_reads_back(b, u, k);
                    lemma_key_position(u, k);
                    lemma_key_position(m, k);
                }
                assert forall|k: Seq<char>| #[trigger] map_get(merge_entries(m, u), k) == map_get(m, k) by {
                    merge_reads_back(m, u, k);
                    merge_reads_back(b, u, k);
                    lemma_key_position(u, k);
                    let p = key_position(u, k);
                    if p >= 0 {
                        lemma_entries_ops_well_formed(b, k, Json::Null);
                        merge_is_idempotent(map_get(b, k), u[p].1);
                    }
                }
                lemma_merge_equal_pointwise(m, u);
            },
            _ => {
                merge_onto_itself(incoming);
            },
        },
        _ => {},
    }
}

proof fn lemma_insert_twice(e: Seq<(Seq<char>, Json)>, k: Seq<char>, v: Json)
    ensures
        map_insert(map_insert(e, k, v), k, v) == map_insert(e, k, v),
{
    let once = map_insert(e, k, v);
    lemma_get_after_insert(e, k, v, k);
    lemma_key_position(once, k);
    let p = key_position(once, k);
    assert(once.update(p, (k, v)) =~= once);
}

proof fn lemma_remove_twice(e: Seq<(Seq<char>, Json)>, k: Seq<char>)
    requires
        keys_distinct(e),
    ensures
        map_remove(map_remove(e, k), k) == map_remove(e, k),
{
    lemma_get_after_remove(e, k, k);
}

/// Removing the same target a second time from a well-formed document changes nothing.
pub proof fn remove_twice_changes_nothing(node: Json, parents: Seq<Seq<char>>, key: Seq<char>)
    requires
        well_formed(node),
        remove_at(node, parents, key) is Ok,
    ensures
        remove_at(remove_at(node, parents, key)->Ok_0, parents, key) == remove_at(
            node,
            parents,
            key,
        ),
    decreases parents.len(),
{
    match node {
        Json::Object(e) => {
            if parents.len() == 0 {
                lemma_remove_twice(e, key);
            } else {
                let seg = parents[0];
                lemma_entries_ops_well_formed(e, seg, Json::Null);
                match map_get(e, seg) {
                    Some(child) => {
                        let rest = parents.drop_first();
                        remove_twice_changes_nothing(child, rest, key);
                        let c = remove_at(child, rest, key)->Ok_0;
                        lemma_get_after_insert(e, seg, c, seg);
                        lemma_insert_twice(e, seg, c);
                    },
                    None => {},
                }
            }
        },
        _ => {},
    }
}

/// Applying the same update a second time to a well-formed document changes nothing.
pub proof fn update_twice_changes_nothing(
    node: Json,
    segments: Seq<Seq<char>>,
    update: Seq<(Seq<char>, Json)>,
    target: Seq<char>,
)
    requires
        well_formed(node),
        well_formed(Json::Object(update)),
        update_at(node, segments, update, target) is Ok,
    ensures
        update_at(update_at(node, segments, update, target)->Ok_0, segments, update, target)
            == update_at(node, segments, update, target),
    decreases segments.len(),
{
    let e = node->Object_0;
    if segments.len() == 0 {
        merge_is_idempotent(Some(node), Json::Object(update));
    } else {
        let seg = segments[0];
        let rest = segments.drop_first();
        lemma_entries_ops_well_formed(e, seg, Json::Null);
        let child = match map_get(e, seg) {
            Some(c) => c,
            None => Json::Object(Seq::empty()),
        };
        assert(well_formed(child)) by {
            if map_get(e, seg) is None {
                assert(keys_distinct(Seq::<(Seq<char>, Json)>::empty()));
            }
        }
        update_twice_changes_nothing(child, rest, update, target);
        let c = update_at(child, rest, update, target)->Ok_0;
        lemma_get_after_insert(e, seg, c, seg);
        lemma_insert_twice(e, seg, c);
    }
}

/// An action that succeeded on a well-formed document, with a well-formed update,
/// changes nothing when applied again to its result.
pub proof fn action_twice_changes_nothing(doc: Json, action: ActionModel)
    requires
        well_formed(doc),
        update_well_formed(action),
        apply_action(doc, action) is Ok,
    ensures
        apply_action(apply_action(doc, action)->Ok_0, action) == apply_action(doc, action),
{
    let segs = target_segments(action.target)->Ok_0;
    if action.remove == Some(true) {
        remove_twice_changes_nothing(doc, segs.drop_last(), segs.last());
    } else {
        match action.update {
            Some(u) => update_twice_changes_nothing(doc, segs, u, action.target),
            None => {},
        }
    }
}

/// Applying a one-action overlay a second time to its result changes nothing, for a
/// well-formed document and a well-formed update.
pub proof fn one_action_overlay_is_idempotent(doc: Json, actions: Seq<ActionModel>)
    requires
        actions.len() == 1,
        well_formed(doc),
        update_well_formed(actions[0]),
        apply_actions(doc, actions) is Ok,
    ensures
        apply_actions(apply_actions(doc, actions)->Ok_0, actions) == apply_actions(doc, actions),
{
    let none = actions.drop_last();
    assert(none =~= Seq::<ActionModel>::empty());
    assert(actions.last() == actions[0]);
    assert(apply_actions(doc, none) == Ok::<Json, OverlayFault>(doc));
    assert(apply_actions(doc, actions) == apply_action(doc, actions[0]));
    let r = apply_actions(doc, actions)->Ok_0;
    assert(apply_actions(r, none) == Ok::<Json, OverlayFault>(r));
    assert(apply_actions(r, actions) == apply_action(r, actions[0]));
    action_twice_changes_nothing(doc, actions[0]);
}


// ---------------------------------------------------------------------------
// When actions succeed

/// Nothing is there, or an object is.
pub open spec fn object_or_absent(o: Option<Json>) -> bool {
    match o {
        None => true,
        Some(Json::Object(_)) => true,
        _ => false,
    }
}

/// Walking `path` down from `j`, every value met along the way (`j` itself included)
/// is an object or absent.
pub open spec fn path_objects(j: Json, path: Seq<Seq<char>>) -> bool {
    forall|i: int| 0 <= i <= path.len() ==> object_or_absent(#[trigger] get_path(j, path.take(i)))
}

proof fn lemma_path_objects_step(e: Seq<(Seq<char>, Json)>, p: Seq<Seq<char>>)
    requires
        p.len() > 0,
    ensures
        path_objects(Json::Object(e), p) == match map_get(e, p[0]) {
            None => true,
            Some(c) => path_objects(c, p.drop_first()),
        },
{
    let node = Json::Object(e);
    let rest = p.drop_first();
    assert(p.take(0) =~= Seq::<Seq<char>>::empty());
    assert forall|i: int| 1 <= i <= p.len() implies get_path(node, #[trigger] p.take(i)) == match map_get(e, p[0]) {
        None => None,
        Some(c) => get_path(c, rest.take(i - 1)),
    } by {
        assert(p.take(i).drop_first() =~= rest.take(i - 1));
        assert(p.take(i)[0] == p[0]);
    }
    match map_get(e, p[0]) {
        None => {
            assert forall|i: int| 0 <= i <= p.len() implies object_or_absent(
                #[trigger] get_path(node, p.take(i)),
            ) by {}
        },
        Some(c) => {
            if path_objects(c, rest) {
                assert forall|i: int| 0 <= i <= p.len() implies object_or_absent(
                    #[trigger] get_path(node, p.take(i)),
                ) by {
                    if i >= 1 {
                        assert(object_or_absent(get_path(c, rest.take(i - 1))));
                    }
                }
            }
            if path_objects(node, p) {
                assert forall|i: int| 0 <= i <= rest.len() implies object_or_absent(
                    #[trigger] get_path(c, rest.take(i)),
                ) by {
                    assert(object_or_absent(get_path(node, p.take(i + 1))));
                }
            }
        },
    }
}

proof fn lemma_path_objects_root(j: Json, p: Seq<Seq<char>>)
    ensures
        path_objects(j, p) ==> j is Object,
        p.len() == 0 ==> (path_objects(j, p) <==> j is Object),
{
    assert(p.take(0) =~= Seq::<Seq<char>>::empty());
    assert(get_path(j, p.take(0)) == Some(j));
    if p.len() == 0 && j is Object {
        assert forall|i: int| 0 <= i <= p.len() implies object_or_absent(
            #[trigger] get_path(j, p.take(i)),
        ) by {
            assert(i == 0);
        }
    }
}

proof fn lemma_path_objects_empty(p: Seq<Seq<char>>)
    ensures
        path_objects(Json::Object(Seq::empty()), p),
{
    lemma_key_position(Seq::<(Seq<char>, Json)>::empty(), if p.len() > 0 {
        p[0]
    } else {
        Seq::empty()
    });
    if p.len() > 0 {
        lemma_path_objects_step(Seq::empty(), p);
    } else {
        lemma_path_objects_root(Json::Object(Seq::empty()), p);
    }
}

/// An update succeeds exactly when every value on its path is an object or missing:
/// missing objects are created, and only a value that is there but is not an object
/// (the root included) makes it fail.
pub proof fn update_succeeds_iff_path_is_objects(
    node: Json,
    segments: Seq<Seq<char>>,
    update: Seq<(Seq<char>, Json)>,
    target: Seq<char>,
)
    ensures
        update_at(node, segments, update, target) is Ok <==> path_objects(node, segments),
    decreases segments.len(),
{
    lemma_path_objects_root(node, segments);
    match node {
        Json::Object(e) => {
            if segments.len() > 0 {
                lemma_path_objects_step(e, segments);
                let rest = segments.drop_first();
                match map_get(e, segments[0]) {
                    None => {
                        lemma_path_objects_empty(rest);
                        update_succeeds_iff_path_is_objects(
                            Json::Object(Seq::empty()),
                            rest,
                            update,
                            target,
                        );
                    },
                    Some(c) => {
                        lemma_path_objects_root(c, rest);
                        update_succeeds_iff_path_is_objects(c, rest, update, target);
                    },
                }
            }
        },
        _ => {},
    }
}

/// A removal succeeds exactly when its parent path is empty or every value on it is an
/// object or missing; a missing parent makes it change nothing.
pub proof fn remove_succeeds_iff_path_is_objects(node: Json, parents: Seq<Seq<char>>, key: Seq<char>)
    ensures
        remove_at(node, parents, key) is Ok <==> (parents.len() == 0 || path_objects(node, parents)),
    decreases parents.len(),
{
    lemma_path_objects_root(node, parents);
    match node {
        Json::Object(e) => {
            if parents.len() > 0 {
                lemma_path_objects_step(e, parents);
                let rest = parents.drop_first();
                match map_get(e, parents[0]) {
                    None => {},
                    Some(c) => {
                        lemma_path_objects_root(c, rest);
                        remove_succeeds_iff_path_is_objects(c, rest, key);
                    },
                }
            }
        },
        _ => {},
    }
}

/// An action succeeds exactly when its target is accepted and then: for a removal, the
/// target is not the root and its parent path is empty or made of objects or missing
/// values; for an update, its path is made of objects or missing values; otherwise
/// always.
pub proof fn action_succeeds_iff(doc: Json, action: ActionModel)
    ensures
        apply_action(doc, action) is Ok <==> (target_segments(action.target) matches Ok(segs) && (
        if action.remove == Some(true) {
            segs.len() > 0 && (segs.len() == 1 || path_objects(doc, segs.drop_last()))
        } else if action.update is Some {
            path_objects(doc, segs)
        } else {
            true
        })),
{
    match target_segments(action.target) {
        Ok(segs) => {
            if action.remove == Some(true) {
                if segs.len() > 0 {
                    remove_succeeds_iff_path_is_objects(doc, segs.drop_last(), segs.last());
                }
            } else {
                match action.update {
                    Some(u) => update_succeeds_iff_path_is_objects(doc, segs, u, action.target),
                    None => {},
                }
            }
        },
        Err(_) => {},
    }
}

// ---------------------------------------------------------------------------
// Reading back what an update wrote

/// A value that is not an object, merged onto anything, replaces it.
pub proof fn merge_of_non_object_replaces(existing: Option<Json>, incoming: Json)
    requires
        !(incoming is Object),
    ensures
        deep_merge(existing, incoming) == incoming,
{
}

/// Reading one key further down a path reads that key in the object the path reaches.
pub proof fn get_path_push(j: Json, path: Seq<Seq<char>>, k: Seq<char>)
    ensures
        get_path(j, path.push(k)) == match get_path(j, path) {
            Some(Json::Object(e)) => map_get(e, k),
            _ => None,
        },
    decreases path.len(),
{
    if path.len() == 0 {
        let one = path.push(k);
        assert(one.drop_first() =~= Seq::<Seq<char>>::empty());
        assert(one[0] == k);
        assert(get_path(j, path) == Some(j));
        match j {
            Json::Object(e) => {
                match map_get(e, k) {
                    Some(c) => {
                        assert(get_path(c, one.drop_first()) == Some(c));
                    },
                    None => {},
                }
            },
            _ => {},
        }
    } else {
        assert(path.push(k).drop_first() =~= path.drop_first().push(k));
        assert(path.push(k)[0] == path[0]);
        match j {
            Json::Object(e) => match map_get(e, path[0]) {
                Some(c) => get_path_push(c, path.drop_first(), k),
                None => {},
            },
            _ => {},
        }
    }
}

/// After an update action, each key of the update (with distinct keys) reads, under
/// the target, as its update value deep-merged onto what was there before; so a value
/// that is not an object reads back exactly as written. Every other key under the
/// target reads as before.
pub proof fn update_action_reads_back(doc: Json, action: ActionModel, k: Seq<char>)
    requires
        apply_action(doc, action) is Ok,
        action.remove != Some(true),
        action.update matches Some(u) && keys_distinct(u),
    ensures
        target_segments(action.target) matches Ok(segs) && get_path(
            apply_action(doc, action)->Ok_0,
            segs.push(k),
        ) == match map_get(action.update->Some_0, k) {
            Some(v) => Some(deep_merge(get_path(doc, segs.push(k)), v)),
            None => get_path(doc, segs.push(k)),
        },
        match (action.update, target_segments(action.target)) {
            (Some(u), Ok(segs)) => match map_get(u, k) {
                Some(v) => !(v is Object) ==> get_path(apply_action(doc, action)->Ok_0, segs.push(k))
                    == Some(v),
                None => true,
            },
            _ => true,
        },
{
    let segs = target_segments(action.target)->Ok_0;
    let u = action.update->Some_0;
    let r = apply_action(doc, action)->Ok_0;
    update_lands_at_target(doc, segs, u, action.target);
    update_succeeds_iff_path_is_objects(doc, segs, u, action.target);
    assert(object_or_absent(get_path(doc, segs.take(segs.len() as int))));
    assert(segs.take(segs.len() as int) =~= segs);
    get_path_push(r, segs, k);
    get_path_push(doc, segs, k);
    merge_reads_back(entries_at(doc, segs), u, k);
    if get_path(doc, segs) is None {
        lemma_key_position(Seq::<(Seq<char>, Json)>::empty(), k);
    }
}

// ---------------------------------------------------------------------------
// What a failure reports

/// `i` is the length of the first prefix of `path` that reaches, from `j`, a value that
/// is there but is not an object.
pub open spec fn first_non_object(j: Json, path: Seq<Seq<char>>, i: int) -> bool {
    &&& 0 <= i <= path.len()
    &&& !object_or_absent(get_path(j, path.take(i)))
    &&& forall|m: int| 0 <= m < i ==> object_or_absent(#[trigger] get_path(j, path.take(m)))
}

/// The key named when the walk fails at prefix length `i`: the key that led to the
/// offending value, or, when the root itself is not an object, the first key (or the
/// whole target when there is none).
pub open spec fn blamed_key(path: Seq<Seq<char>>, target: Seq<char>, i: int) -> Seq<char> {
    if i == 0 {
        if path.len() == 0 {
            target
        } else {
            path[0]
        }
    } else {
        path[i - 1]
    }
}

proof fn lemma_first_non_object_step(e: Seq<(Seq<char>, Json)>, c: Json, p: Seq<Seq<char>>, i: int)
    requires
        p.len() > 0,
        map_get(e, p[0]) == Some(c),
        first_non_object(c, p.drop_first(), i),
    ensures
        first_non_object(Json::Object(e), p, i + 1),
{
    let node = Json::Object(e);
    let rest = p.drop_first();
    assert forall|m: int| 1 <= m <= p.len() implies get_path(node, #[trigger] p.take(m)) == get_path(
        c,
        rest.take(m - 1),
    ) by {
        assert(p.take(m).drop_first() =~= rest.take(m - 1));
        assert(p.take(m)[0] == p[0]);
    }
    assert(p.take(0) =~= Seq::<Seq<char>>::empty());
    assert(get_path(node, p.take(i + 1)) == get_path(c, rest.take(i)));
    assert forall|m: int| 0 <= m < i + 1 implies object_or_absent(#[trigger] get_path(node, p.take(m))) by {
        if m >= 1 {
            assert(object_or_absent(get_path(c, rest.take(m - 1))));
        }
    }
}

proof fn lemma_child_not_object(e: Seq<(Seq<char>, Json)>, c: Json, p: Seq<Seq<char>>)
    requires
        p.len() > 0,
        map_get(e, p[0]) == Some(c),
        !(c is Object),
    ensures
        first_non_object(Json::Object(e), p, 1),
{
    let rest = p.drop_first();
    assert(rest.take(0) =~= Seq::<Seq<char>>::empty());
    assert(get_path(c, rest.take(0)) == Some(c));
    assert(!object_or_absent(get_path(c, rest.take(0))));
    assert forall|m: int| 0 <= m < 0 implies object_or_absent(#[trigger] get_path(c, rest.take(m))) by {}
    lemma_first_non_object_step(e, c, p, 0);
}

proof fn lemma_root_not_object(j: Json, p: Seq<Seq<char>>)
    requires
        !(j is Object),
    ensures
        first_non_object(j, p, 0),
{
    assert(p.take(0) =~= Seq::<Seq<char>>::empty());
    assert(get_path(j, p.take(0)) == Some(j));
}

proof fn update_fault_at(
    node: Json,
    segments: Seq<Seq<char>>,
    update: Seq<(Seq<char>, Json)>,
    target: Seq<char>,
) -> (i: int)
    requires
        update_at(node, segments, update, target) is Err,
    ensures
        first_non_object(node, segments, i),
        update_at(node, segments, update, target) == Err::<Json, OverlayFault>(
            OverlayFault::NotAnObject(blamed_key(segments, target, i)),
        ),
    decreases segments.len(),
{
    match node {
        Json::Object(e) => {
            let seg = segments[0];
            let rest = segments.drop_first();
            match map_get(e, seg) {
                Some(c) => {
                    if c is Object {
                        let j = update_fault_at(c, rest, update, target);
                        assert(j > 0) by {
                            assert(rest.take(0) =~= Seq::<Seq<char>>::empty());
                        }
                        lemma_first_non_object_step(e, c, segments, j);
                        j + 1
                    } else {
                        lemma_child_not_object(e, c, segments);
                        1
                    }
                },
                None => {
                    lemma_path_objects_empty(rest);
                    update_succeeds_iff_path_is_objects(Json::Object(Seq::empty()), rest, update, target);
                    0
                },
            }
        },
        _ => {
            lemma_root_not_object(node, segments);
            0
        },
    }
}

/// A failed update reports the first value on its path that is there but is not an
/// object, naming the key that led to it (the first key, or the whole target when
/// there is none, for a root that is not an object).
pub proof fn update_failure_names_the_first_non_object(
    node: Json,
    segments: Seq<Seq<char>>,
    update: Seq<(Seq<char>, Json)>,
    target: Seq<char>,
)
    requires
        update_at(node, segments, update, target) is Err,
    ensures
        exists|i: int|
            first_non_object(node, segments, i) && update_at(node, segments, update, target)
                == Err::<Json, OverlayFault>(OverlayFault::NotAnObject(blamed_key(segments, target, i))),
{
    let i = update_fault_at(node, segments, update, target);
    assert(first_non_object(node, segments, i));
}

proof fn remove_fault_at(node: Json, parents: Seq<Seq<char>>, key: Seq<char>) -> (i: int)
    requires
        remove_at(node, parents, key) is Err,
    ensures
        parents.len() > 0,
        first_non_object(node, parents, i),
        remove_at(node, parents, key) == Err::<Json, OverlayFault>(
            OverlayFault::NotAnObject(blamed_key(parents, key, i)),
        ),
    decreases parents.len(),
{
    match node {
        Json::Object(e) => {
            let seg = parents[0];
            let rest = parents.drop_first();
            let c = map_get(e, seg)->Some_0;
            if c is Object {
                let j = remove_fault_at(c, rest, key);
                assert(j > 0) by {
                    assert(rest.take(0) =~= Seq::<Seq<char>>::empty());
                }
                lemma_first_non_object_step(e, c, parents, j);
                j + 1
            } else {
                lemma_child_not_object(e, c, parents);
                1
            }
        },
        _ => {
            lemma_root_not_object(node, parents);
            0
        },
    }
}

/// A failed removal has a parent path, and reports the first value on it that is there
/// but is not an object, naming the key that led to it (the first key for a root that
/// is not an object).
pub proof fn remove_failure_names_the_first_non_object(
    node: Json,
    parents: Seq<Seq<char>>,
    key: Seq<char>,
)
    requires
        remove_at(node, parents, key) is Err,
    ensures
        parents.len() > 0,
        exists|i: int|
            first_non_object(node, parents, i) && remove_at(node, parents, key) == Err::<
                Json,
                OverlayFault,
            >(OverlayFault::NotAnObject(blamed_key(parents, key, i))),
{
    let i = remove_fault_at(node, parents, key);
    assert(first_non_object(node, parents, i));
}

/// A failed action reports why: a refused target as unsupported, naming the target; the
/// removal of the root as such; and otherwise a value on the walk that is not an object.
pub proof fn action_failure_says_why(doc: Json, action: ActionModel)
    ensures
        match (apply_action(doc, action), target_segments(action.target)) {
            (Err(f), Err(_)) => f == OverlayFault::UnsupportedTarget(action.target),
            (Err(f), Ok(segs)) => if action.remove == Some(true) && segs.len() == 0 {
                f == OverlayFault::RemovesRoot
            } else {
                f is NotAnObject
            },
            _ => true,
        },
{
    match target_segments(action.target) {
        Ok(segs) => {
            if apply_action(doc, action) is Err {
                if action.remove == Some(true) {
                    if segs.len() > 0 {
                        remove_fault_at(doc, segs.drop_last(), segs.last());
                    }
                } else {
                    match action.update {
                        Some(u) => {
                            update_fault_at(doc, segs, u, action.target);
                        },
                        None => {},
                    }
                }
            }
        },
        Err(_) => {},
    }
}

// ---------------------------------------------------------------------------
// What an action leaves alone

proof fn lemma_get_path_step(e: Seq<(Seq<char>, Json)>, p: Seq<Seq<char>>)
    requires
        p.len() > 0,
    ensures
        get_path(Json::Object(e), p) == match map_get(e, p[0]) {
            Some(c) => get_path(c, p.drop_first()),
            None => None,
        },
{
}

proof fn lemma_get_path_in_empty(p: Seq<Seq<char>>)
    requires
        p.len() > 0,
    ensures
        get_path(Json::Object(Seq::empty()), p) is None,
{
    lemma_key_position(Seq::<(Seq<char>, Json)>::empty(), p[0]);
}

/// An update changes nothing off its path: at every object on the way to the target,
/// each key other than the next one on the path reads as before.
pub proof fn update_keeps_what_is_off_its_path(
    node: Json,
    segments: Seq<Seq<char>>,
    update: Seq<(Seq<char>, Json)>,
    target: Seq<char>,
    i: int,
    k: Seq<char>,
)
    requires
        update_at(node, segments, update, target) is Ok,
        0 <= i < segments.len(),
        k != segments[i],
    ensures
        get_path(update_at(node, segments, update, target)->Ok_0, segments.take(i).push(k))
            == get_path(node, segments.take(i).push(k)),
    decreases segments.len(),
{
    let e = node->Object_0;
    let seg = segments[0];
    let rest = segments.drop_first();
    let child = match map_get(e, seg) {
        Some(c) => c,
        None => Json::Object(Seq::empty()),
    };
    let c = update_at(child, rest, update, target)->Ok_0;
    let q = segments.take(i).push(k);
    lemma_get_path_step(map_insert(e, seg, c), q);
    lemma_get_path_step(e, q);
    if i == 0 {
        assert(q =~= seq![k]);
        lemma_get_after_insert(e, seg, c, k);
    } else {
        assert(q[0] == seg);
        assert(q.drop_first() =~= rest.take(i - 1).push(k));
        lemma_get_after_insert(e, seg, c, seg);
        update_keeps_what_is_off_its_path(child, rest, update, target, i - 1, k);
        if map_get(e, seg) is None {
            lemma_get_path_in_empty(rest.take(i - 1).push(k));
        }
    }
}

/// A removal changes nothing off its path: at every object on the way to the parent,
/// each key other than the next one on the path reads as before.
pub proof fn remove_keeps_what_is_off_its_path(
    node: Json,
    parents: Seq<Seq<char>>,
    key: Seq<char>,
    i: int,
    k: Seq<char>,
)
    requires
        remove_at(node, parents, key) is Ok,
        0 <= i < parents.len(),
        k != parents[i],
    ensures
        get_path(remove_at(node, parents, key)->Ok_0, parents.take(i).push(k)) == get_path(
            node,
            parents.take(i).push(k),
        ),
    decreases parents.len(),
{
    let e = node->Object_0;
    let seg = parents[0];
    let rest = parents.drop_first();
    match map_get(e, seg) {
        None => {},
        Some(child) => {
            let c = remove_at(child, rest, key)->Ok_0;
            let q = parents.take(i).push(k);
            lemma_get_path_step(map_insert(e, seg, c), q);
            lemma_get_path_step(e, q);
            if i == 0 {
                assert(q =~= seq![k]);
                lemma_get_after_insert(e, seg, c, k);
            } else {
                assert(q[0] == seg);
                assert(q.drop_first() =~= rest.take(i - 1).push(k));
                lemma_get_after_insert(e, seg, c, seg);
                remove_keeps_what_is_off_its_path(child, rest, key, i - 1, k);
            }
        },
    }
}

// ---------------------------------------------------------------------------
// Targets that mix dotted and bracket steps

/// The target text that walks `keys`, the `i`-th written as a single-quoted bracket step
/// when `bracket[i]` holds and as a dotted step otherwise.
pub open spec fn written(keys: Seq<Seq<char>>, bracket: Seq<bool>) -> Seq<char>
    decreases keys.len(),
{
    if keys.len() == 0 || bracket.len() == 0 {
        Seq::empty()
    } else {
        (if bracket[0] {
            seq!['[', '\''] + keys[0] + seq!['\'', ']']
        } else {
            seq!['.'] + keys[0]
        }) + written(keys.drop_first(), bracket.drop_first())
    }
}

/// `key` can be written as the chosen kind of step: free of single quotes in brackets,
/// made of name characters when dotted.
pub open spec fn writable(key: Seq<char>, bracket: bool) -> bool {
    if bracket {
        !key.contains('\'')
    } else {
        forall|j: int| 0 <= j < key.len() ==> is_name_char(#[trigger] key[j])
    }
}

proof fn lemma_steps_written(keys: Seq<Seq<char>>, bracket: Seq<bool>)
    requires
        keys.len() == bracket.len(),
        forall|i: int| 0 <= i < keys.len() ==> writable(#[trigger] keys[i], bracket[i]),
    ensures
        steps(written(keys, bracket)) == Some(keys),
    decreases keys.len(),
{
    if keys.len() > 0 {
        let k = keys[0];
        let tail = keys.drop_first();
        let btail = bracket.drop_first();
        assert forall|i: int| 0 <= i < tail.len() implies writable(#[trigger] tail[i], btail[i]) by {
            assert(tail[i] == keys[i + 1]);
            assert(btail[i] == bracket[i + 1]);
        }
        assert(writable(keys[0], bracket[0]));
        lemma_steps_written(tail, btail);
        let rest = written(tail, btail);
        if rest.len() > 0 {
            assert(rest[0] == '[' || rest[0] == '.');
        }
        let s = written(keys, bracket);
        if bracket[0] {
            let close = seq!['\'', ']'] + rest;
            assert(s =~= seq!['[', '\''] + (k + close));
            assert(s.skip(2) =~= k + close);
            lemma_quoted_len_of(k, close, '\'');
            assert((k + close).skip(k.len() as int) =~= close);
            assert((k + close).take(k.len() as int) =~= k);
            assert(close.skip(2) =~= rest);
        } else {
            assert(s =~= seq!['.'] + (k + rest));
            assert(s.drop_first() =~= k + rest);
            lemma_name_len_of(k, rest);
            assert((k + rest).skip(k.len() as int) =~= rest);
            assert((k + rest).take(k.len() as int) =~= k);
        }
        assert(seq![k] + tail =~= keys);
    } else {
        assert(written(keys, bracket) =~= Seq::<char>::empty());
        assert(keys =~= Seq::<Seq<char>>::empty());
    }
}

/// Writing keys after `$`, each as a bracket step or a dotted step in any mix (such as
/// `$.paths['/pets/{petId}'].get.responses`), and parsing the target gives the keys
/// back, one per step.
pub proof fn written_keys_read_back(keys: Seq<Seq<char>>, bracket: Seq<bool>)
    requires
        keys.len() == bracket.len(),
        forall|i: int| 0 <= i < keys.len() ==> writable(#[trigger] keys[i], bracket[i]),
    ensures
        target_segments(seq!['$'] + written(keys, bracket)) == Ok::<Seq<Seq<char>>, OverlayFault>(
            keys,
        ),
{
    lemma_steps_written(keys, bracket);
    assert((seq!['$'] + written(keys, bracket)).skip(1) =~= written(keys, bracket));
}


// ---------------------------------------------------------------------------
// The accepted targets, exactly

/// The target text (after `$`) that walks `keys`, the `i`-th written as a bracket step
/// quoted with `q` when `quotes[i]` is `Some(q)`, and as a dotted step when it is `None`.
pub open spec fn rendered(keys: Seq<Seq<char>>, quotes: Seq<Option<char>>) -> Seq<char>
    decreases keys.len(),
{
    if keys.len() == 0 || quotes.len() == 0 {
        Seq::empty()
    } else {
        (match quotes[0] {
            Some(q) => seq!['[', q] + keys[0] + seq![q, ']'],
            None => seq!['.'] + keys[0],
        }) + rendered(keys.drop_first(), quotes.drop_first())
    }
}

/// `key` can be written as the chosen step: quoted with a quote it does not contain,
/// or dotted when it is made of name characters.
pub open spec fn renderable(key: Seq<char>, quote: Option<char>) -> bool {
    match quote {
        Some(q) => is_quote(q) && !key.contains(q),
        None => forall|j: int| 0 <= j < key.len() ==> is_name_char(#[trigger] key[j]),
    }
}

proof fn lemma_steps_rendered(keys: Seq<Seq<char>>, quotes: Seq<Option<char>>)
    requires
        keys.len() == quotes.len(),
        forall|i: int| 0 <= i < keys.len() ==> renderable(#[trigger] keys[i], quotes[i]),
    ensures
        steps(rendered(keys, quotes)) == Some(keys),
    decreases keys.len(),
{
    if keys.len() > 0 {
        let k = keys[0];
        let tail = keys.drop_first();
        let qtail = quotes.drop_first();
        assert forall|i: int| 0 <= i < tail.len() implies renderable(#[trigger] tail[i], qtail[i]) by {
            assert(tail[i] == keys[i + 1]);
            assert(qtail[i] == quotes[i + 1]);
        }
        assert(renderable(keys[0], quotes[0]));
        lemma_steps_rendered(tail, qtail);
        let rest = rendered(tail, qtail);
        if rest.len() > 0 {
            assert(rest[0] == '[' || rest[0] == '.');
        }
        let s = rendered(keys, quotes);
        match quotes[0] {
            Some(q) => {
                let close = seq![q, ']'] + rest;
                assert(s =~= seq!['[', q] + (k + close));
                assert(s.skip(2) =~= k + close);
                assert(s[1] == q);
                lemma_quoted_len_of(k, close, q);
                assert((k + close).skip(k.len() as int) =~= close);
                assert((k + close).take(k.len() as int) =~= k);
                assert(close.skip(2) =~= rest);
            },
            None => {
                assert(s =~= seq!['.'] + (k + rest));
                assert(s.drop_first() =~= k + rest);
                lemma_name_len_of(k, rest);
                assert((k + rest).skip(k.len() as int) =~= rest);
                assert((k + rest).take(k.len() as int) =~= k);
            },
        }
        assert(seq![k] + tail =~= keys);
    } else {
        assert(rendered(keys, quotes) =~= Seq::<char>::empty());
        assert(keys =~= Seq::<Seq<char>>::empty());
    }
}

proof fn lemma_steps_are_rendered(s: Seq<char>) -> (quotes: Seq<Option<char>>)
    requires
        steps(s) is Some,
    ensures
        quotes.len() == steps(s)->Some_0.len(),
        forall|i: int|
            0 <= i < quotes.len() ==> renderable(#[trigger] steps(s)->Some_0[i], quotes[i]),
        s == rendered(steps(s)->Some_0, quotes),
    decreases s.len(),
{
    if s.len() == 0 {
        assert(rendered(Seq::empty(), Seq::<Option<char>>::empty()) =~= s);
        Seq::empty()
    } else if s[0] == '.' {
        let body = s.drop_first();
        let n = name_len(body);
        let rest = body.skip(n as int);
        lemma_name_len(body);
        let key = body.take(n as int);
        let tail = steps(rest)->Some_0;
        let qt = lemma_steps_are_rendered(rest);
        let keys = steps(s)->Some_0;
        assert(keys =~= seq![key] + tail);
        let quotes = seq![None::<char>] + qt;
        assert(keys.drop_first() =~= tail);
        assert(quotes.drop_first() =~= qt);
        assert(s =~= seq!['.'] + key + rest);
        assert forall|i: int| 0 <= i < quotes.len() implies renderable(#[trigger] keys[i], quotes[i]) by {
            if i > 0 {
                assert(keys[i] == tail[i - 1]);
                assert(quotes[i] == qt[i - 1]);
            } else {
                assert forall|j: int| 0 <= j < key.len() implies is_name_char(#[trigger] key[j]) by {
                    assert(key[j] == body[j]);
                }
            }
        }
        quotes
    } else {
        let q = s[1];
        let body = s.skip(2);
        let n = quoted_len(body, q);
        lemma_quoted_len(body, q);
        let after = body.skip(n as int);
        let key = body.take(n as int);
        let rest = after.skip(2);
        let tail = steps(rest)->Some_0;
        let qt = lemma_steps_are_rendered(rest);
        let keys = steps(s)->Some_0;
        assert(keys =~= seq![key] + tail);
        let quotes = seq![Some(q)] + qt;
        assert(keys.drop_first() =~= tail);
        assert(quotes.drop_first() =~= qt);
        assert(after[0] == q);
        assert(s =~= seq!['[', q] + key + seq![q, ']'] + rest);
        assert forall|i: int| 0 <= i < quotes.len() implies renderable(#[trigger] keys[i], quotes[i]) by {
            if i > 0 {
                assert(keys[i] == tail[i - 1]);
                assert(quotes[i] == qt[i - 1]);
            } else {
                if key.contains(q) {
                    let j = choose|j: int| 0 <= j < key.len() && key[j] == q;
                    assert(body[j] == q);
                }
            }
        }
        quotes
    }
}

/// The accepted targets are exactly `$` followed by steps, each a dotted key made of
/// name characters or a bracket key quoted with `'` or `"` that it does not contain, and
/// the keys a target walks are the keys of its steps, one per step, in order.
pub proof fn accepted_targets_are_rendered_keys(t: Seq<char>, keys: Seq<Seq<char>>, quotes: Seq<Option<char>>)
    ensures
        keys.len() == quotes.len() && (forall|i: int|
            0 <= i < keys.len() ==> renderable(#[trigger] keys[i], quotes[i])) ==> target_segments(
            seq!['$'] + rendered(keys, quotes),
        ) == Ok::<Seq<Seq<char>>, OverlayFault>(keys),
        target_segments(t) matches Ok(ks) ==> exists|qs: Seq<Option<char>>|
            qs.len() == ks.len() && (forall|i: int|
                0 <= i < ks.len() ==> renderable(#[trigger] ks[i], qs[i])) && t == seq!['$']
                + rendered(ks, qs),
{
    if keys.len() == quotes.len() && (forall|i: int|
        0 <= i < keys.len() ==> renderable(#[trigger] keys[i], quotes[i])) {
        lemma_steps_rendered(keys, quotes);
        assert((seq!['$'] + rendered(keys, quotes)).skip(1) =~= rendered(keys, quotes));
    }
    if target_segments(t) is Ok {
        let ks = target_segments(t)->Ok_0;
        let qs = lemma_steps_are_rendered(t.skip(1));
        assert(t =~= seq!['$'] + t.skip(1));
        assert(qs.len() == ks.len() && (forall|i: int|
            0 <= i < ks.len() ==> renderable(#[trigger] ks[i], qs[i])) && t == seq!['$']
            + rendered(ks, qs));
    }
}

} // verus!
