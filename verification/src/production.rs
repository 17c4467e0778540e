//! Productions: a name and the type that it stands for, as one entry of a grammar.

use crate::names::{ascending, lemma_ascending_unique, listed, name_lt, NameMap, NameSet};
use crate::properties::{
    detect_tag, lemma_order_bounds, lists, order_properties, property_order, tag_of,
};
use crate::render::{
    bar, default_remark, default_suffix, members_refs, members_text, object_type_refs,
    object_type_text, property_refs, property_texts, render_key, render_object, render_schema,
    render_schema_object, shown_key, type_refs, type_text, union_at,
};
use crate::schema::{
    non_null, non_null_variants, targets, union_arms, ObjectValidation, Schema, SchemaObject,
};
use crate::style::{bolded, dimmed, in_yellow, plain_len, visible, Style};
use crate::text::{
    blanks, cat, cat3, copy_text, decimal, decimal_text, has_char, join, joined, lemma_texts_push,
    same, texts,
};
use crate::usage::{in_order, kept};
use vstd::prelude::*;
use vstd::string::*;

verus! {

/// The list of names that puts the tag first, where there is one.
pub open spec fn tag_first(tag: Option<Seq<char>>) -> Seq<Seq<char>> {
    match tag {
        Some(t) => seq![t],
        None => Seq::empty(),
    }
}

/// The members of an object on one line, for the properties at the positions
/// `order` whose types have the texts `types`.
pub open spec fn member_parts(
    ov: ObjectValidation,
    types: Seq<Seq<char>>,
    order: Seq<int>,
    on: bool,
) -> Seq<Seq<char>> {
    let props = ov.properties.entries@;
    Seq::new(
        order.len(),
        |j: int|
            {
                let name = props[order[j]].0@;
                shown_key(name, ov.required@.contains(name), on) + " "@ + types[order[j]]
                    + default_remark(props[order[j]].1, " "@, on)
            },
    )
}

/// An object on one line, `tag` first.
pub open spec fn inline_object(ov: ObjectValidation, tag: Option<Seq<char>>, on: bool) -> Seq<
    char,
> {
    let props = ov.properties.entries@;
    let order = property_order(props, ov.required@, tag_first(tag));
    if order.len() == 0 {
        "{}"@
    } else {
        "{ "@ + joined(member_parts(ov, property_texts(props, 0, on), order, on), ", "@) + " }"@
    }
}

/// One arm of a tagged union on one line: an object with its tag first, any other
/// type as it is.
pub open spec fn inline_variant(s: Schema, tag: Option<Seq<char>>, on: bool) -> Seq<char> {
    if s matches Schema::Object(o) && o.object is Some {
        inline_object(*s->Object_0.object->0, tag, on)
    } else {
        type_text(s, 0, on)
    }
}

/// The names that one arm on one line refers to.
pub open spec fn inline_refs(s: Schema, tag: Option<Seq<char>>) -> Set<Seq<char>> {
    if s matches Schema::Object(o) && o.object is Some {
        members_refs(s->Object_0, tag_first(tag))
    } else {
        type_refs(s)
    }
}

/// `text` is a single line of at most `budget` columns.
pub open spec fn fits(text: Seq<char>, budget: nat) -> bool {
    visible(text).len() <= budget && !text.contains('\n')
}

/// The arms of a union on one line each.
pub open spec fn inline_variants(arms: Seq<Schema>, tag: Option<Seq<char>>, on: bool) -> Seq<
    Seq<char>,
> {
    Seq::new(arms.len(), |i: int| inline_variant(arms[i], tag, on))
}

/// Each arm fits on a line of its own.
pub open spec fn all_fit(arms: Seq<Schema>, tag: Option<Seq<char>>, on: bool) -> bool {
    forall|i: int| 0 <= i < arms.len() ==> fits(#[trigger] inline_variant(arms[i], tag, on), 76)
}

/// One arm of a union as a block: an object with its tag first, where there is a
/// tag; else as it is.
pub open spec fn block_variant(s: Schema, tag: Option<Seq<char>>, on: bool) -> Seq<char> {
    if s is Object && tag is Some {
        members_text(s->Object_0, tag_first(tag), 0, on)
    } else {
        type_text(s, 0, on)
    }
}

/// The names that one arm as a block refers to.
pub open spec fn block_refs(s: Schema, tag: Option<Seq<char>>) -> Set<Seq<char>> {
    if s is Object && tag is Some {
        members_refs(s->Object_0, tag_first(tag))
    } else {
        type_refs(s)
    }
}

/// The arms of a union as blocks.
pub open spec fn block_variants(arms: Seq<Schema>, tag: Option<Seq<char>>, on: bool) -> Seq<
    Seq<char>,
> {
    Seq::new(arms.len(), |i: int| block_variant(arms[i], tag, on))
}

/// The body of the production for a union: scalar arms on one line where that
/// fits, else an arm to a line where each fits, else the arms as blocks.
pub open spec fn variants_text(arms: Seq<Schema>, tag: Option<Seq<char>>, on: bool) -> Seq<char> {
    if all_fit(arms, tag, on) {
        let parts = inline_variants(arms, tag, on);
        let line = joined(parts, bar(on));
        if (forall|i: int| 0 <= i < parts.len() ==> !(#[trigger] parts[i]).contains('{'))
            && visible(line).len() <= 80 {
            line
        } else {
            "  "@ + joined(parts, "\n"@ + in_yellow(on, "|"@) + " "@)
        }
    } else {
        joined(block_variants(arms, tag, on), "\n"@ + in_yellow(on, "|"@) + " "@)
    }
}

/// The names in the sets that `f` gives for the schemas of `arms`.
pub open spec fn refs_of_all(arms: Seq<Schema>, f: spec_fn(Schema) -> Set<Seq<char>>) -> Set<
    Seq<char>,
>
    decreases arms.len(),
{
    if arms.len() == 0 {
        Set::empty()
    } else {
        refs_of_all(arms.drop_last(), f).union(f(arms.last()))
    }
}

/// The names that the body of the production for a union refers to.
pub open spec fn variants_refs(arms: Seq<Schema>, tag: Option<Seq<char>>, on: bool) -> Set<
    Seq<char>,
> {
    let inline = refs_of_all(arms, |s: Schema| inline_refs(s, tag));
    if all_fit(arms, tag, on) {
        inline
    } else {
        inline.union(refs_of_all(arms, |s: Schema| block_refs(s, tag)))
    }
}

/// The schema object that a production shows: the object that a single-element
/// `allOf` wraps, else the object itself.
pub open spec fn effective(o: SchemaObject) -> SchemaObject {
    if o.subschemas is Some && o.subschemas->0.all_of is Some
        && o.subschemas->0.all_of->0@.len() == 1 && o.subschemas->0.all_of->0@[0] is Object {
        o.subschemas->0.all_of->0@[0]->Object_0
    } else {
        o
    }
}

/// The real arms of the union that a production shows.
pub open spec fn shown_arms(o: SchemaObject) -> Option<Seq<Schema>> {
    match union_arms(effective(o)) {
        Some(arms) => Some(non_null(arms)),
        None => None,
    }
}

/// The tag of the union that a production shows.
pub open spec fn shown_tag(o: SchemaObject) -> Option<Seq<char>> {
    match shown_arms(o) {
        Some(arms) => tag_of(arms),
        None => None,
    }
}

/// The remark on the types that use a name: the first three of them, and how many
/// more there are.
pub open spec fn used_by(names: Seq<Seq<char>>) -> Seq<char> {
    let take = if names.len() <= 3 {
        names.len() as int
    } else {
        3
    };
    let head = "(used by: "@ + joined(names.take(take), ", "@);
    if names.len() > 3 {
        head + ", +"@ + decimal((names.len() - 3) as nat) + " more"@ + ")"@
    } else {
        head + ")"@
    }
}

/// The remarks on the head of a production: whether it is the root, which other
/// types use it, and the tag of a tagged union.
pub open spec fn remarks(
    name: Seq<char>,
    o: SchemaObject,
    is_root: bool,
    users: Set<Seq<char>>,
    on: bool,
) -> Seq<Seq<char>> {
    let others = listed(users.remove(name));
    let role = if is_root {
        seq![dimmed(on, "(root)"@)]
    } else if others.len() > 0 {
        seq![dimmed(on, used_by(others))]
    } else {
        Seq::empty()
    };
    match shown_tag(o) {
        Some(t) => role.push(dimmed(on, "(tagged on `"@ + t + "`)"@)),
        None => role,
    }
}

/// The head of a production, without its remarks.
pub open spec fn head(name: Seq<char>, on: bool) -> Seq<char> {
    bolded(on, name) + " "@ + dimmed(on, "::="@)
}

/// The body of the production for a schema object.
pub open spec fn body(o: SchemaObject, on: bool) -> Seq<char> {
    match shown_arms(o) {
        Some(arms) => if arms.len() > 1 {
            variants_text(arms, shown_tag(o), on)
        } else if arms.len() == 1 {
            type_text(arms[0], 0, on)
        } else {
            object_type_text(o, 0, on)
        },
        None => object_type_text(o, 0, on),
    }
}

/// The names that the body of the production for a schema object refers to.
pub open spec fn body_refs(o: SchemaObject, on: bool) -> Set<Seq<char>> {
    match shown_arms(o) {
        Some(arms) => if arms.len() > 1 {
            variants_refs(arms, shown_tag(o), on)
        } else if arms.len() == 1 {
            type_refs(arms[0])
        } else {
            object_type_refs(o)
        },
        None => object_type_refs(o),
    }
}

/// The production for a schema object.
pub open spec fn object_production(
    name: Seq<char>,
    o: SchemaObject,
    is_root: bool,
    users: Set<Seq<char>>,
    on: bool,
) -> Seq<char> {
    let notes = remarks(name, o, is_root, users, on);
    let top = if notes.len() > 0 {
        head(name, on) + "  "@ + joined(notes, "  "@)
    } else {
        head(name, on)
    };
    top + "\n"@ + body(o, on) + "\n"@
}

/// The production that shows `s` under the name `name`, which the types `users`
/// use.
pub open spec fn production(
    name: Seq<char>,
    s: Schema,
    users: Set<Seq<char>>,
    on: bool,
) -> Seq<char> {
    match s {
        Schema::Bool(_) => head(name, on) + " "@ + type_text(s, 0, on) + "\n"@,
        Schema::Object(o) => object_production(name, o, false, users, on),
    }
}

/// The names that the production for `s` refers to.
pub open spec fn production_refs(s: Schema, on: bool) -> Set<Seq<char>> {
    match s {
        Schema::Bool(_) => Set::empty(),
        Schema::Object(o) => body_refs(o, on),
    }
}

/// What `tag` holds.
pub open spec fn tag_text(tag: Option<String>) -> Option<Seq<char>> {
    match tag {
        Some(t) => Some(t@),
        None => None,
    }
}

/// The list of names that puts the tag first, where there is one.
fn priority_of(tag: &Option<String>) -> (r: Vec<String>)
    ensures
        texts(r@) == tag_first(tag_text(*tag)),
{
    let mut r: Vec<String> = Vec::new();
    if let Some(t) = tag {
        r.push(t.clone());
        assert(texts(r@) =~= seq![t@]);
    }
    assert(tag is None ==> texts(r@) =~= Seq::<Seq<char>>::empty());
    r
}

/// An object on one line, `tag` first.
fn render_object_inline(
    o: &SchemaObject,
    ov: &ObjectValidation,
    tag: &Option<String>,
    refs: &mut NameSet,
    style: &Style,
) -> (r: String)
    requires
        old(refs).wf(),
        o.object matches Some(x) && *x == *ov,
    ensures
        final(refs).wf(),
        final(refs)@ == old(refs)@.union(members_refs(*o, tag_first(tag_text(*tag)))),
        r@ == inline_object(*ov, tag_text(*tag), style.enabled),
{
    let priority = priority_of(tag);
    let ghost props = ov.properties.entries@;
    let ghost first = tag_first(tag_text(*tag));
    let ghost order = property_order(props, ov.required@, first);
    let ghost on = style.enabled;
    let ghost sets = property_refs(props);
    let ghost types = property_texts(props, 0, on);
    let ghost all = member_parts(*ov, types, order, on);
    let listed = order_properties(ov, &priority);
    let mut parts: Vec<String> = Vec::new();
    let mut j: usize = 0;
    proof {
        lemma_order_bounds(props, ov.required@, first);
        assert(forall|k: int| 0 <= k < order.len() ==> 0 <= #[trigger] order[k] < props.len());
        assert(refs@ =~= old(refs)@.union(union_at(sets, order.take(0))));
        assert(texts(parts@) =~= all.take(0));
    }
    while j < listed.len()
        invariant
            j <= listed.len(),
            props == ov.properties.entries@,
            forall|k: int| 0 <= k < order.len() ==> 0 <= #[trigger] order[k] < props.len(),
            lists(listed@, *ov, order),
            on == style.enabled,
            sets == property_refs(props),
            types == property_texts(props, 0, on),
            all == member_parts(*ov, types, order, on),
            refs.wf(),
            refs@ == old(refs)@.union(union_at(sets, order.take(j as int))),
            texts(parts@) == all.take(j as int),
        decreases listed.len() - j,
    {
        let (k, v, is_required) = listed[j];
        let ghost at = order[j as int];
        let (_, key) = render_key(k, is_required, style);
        assert(""@ =~= blanks(0)) by {
            reveal_strlit("");
        }
        let rendered = render_schema(v, refs, "", style);
        assert(type_text(props[at].1, 0, on) == types[at]);
        assert(type_refs(props[at].1) == sets[at]);
        let mut part = cat3(&key, " ", &rendered);
        part.append(&default_suffix(v, " ", style));
        assert(part@ == all[j as int]);
        let ghost before = parts@;
        parts.push(part);
        proof {
            lemma_texts_push(before, part);
            assert(all.take(j + 1) =~= all.take(j as int).push(all[j as int]));
            assert(order.take(j + 1).drop_last() =~= order.take(j as int));
            assert(order.take(j + 1).last() == at);
            assert(refs@ =~= old(refs)@.union(union_at(sets, order.take(j + 1))));
        }
        j += 1;
    }
    proof {
        assert(order.take(listed.len() as int) =~= order);
        assert(all.take(listed.len() as int) =~= all);
    }
    if parts.len() == 0 {
        assert(texts(parts@).len() == 0);
        copy_text("{}")
    } else {
        assert(texts(parts@).len() > 0);
        cat3("{ ", &join(&parts, ", "), " }")
    }
}

/// One arm of a union on one line, where it fits into `budget` columns.
pub fn render_variant_inline(
    schema: &Schema,
    tag: &Option<String>,
    refs: &mut NameSet,
    style: &Style,
    budget: usize,
) -> (r: Option<String>)
    requires
        old(refs).wf(),
    ensures
        final(refs).wf(),
        final(refs)@ == old(refs)@.union(inline_refs(*schema, tag_text(*tag))),
        match r {
            Some(t) => t@ == inline_variant(*schema, tag_text(*tag), style.enabled) && fits(
                t@,
                budget as nat,
            ),
            None => !fits(
                inline_variant(*schema, tag_text(*tag), style.enabled),
                budget as nat,
            ),
        },
{
    if let Schema::Object(o) = schema {
        if let Some(ov) = &o.object {
            let inline = render_object_inline(o, ov, tag, refs, style);
            if plain_len(&inline) <= budget && !has_char(&inline, '\n') {
                return Some(inline);
            }
            return None;
        }
    }
    assert(""@ =~= blanks(0)) by {
        reveal_strlit("");
    }
    let rendered = render_schema(schema, refs, "", style);
    if plain_len(&rendered) <= budget && !has_char(&rendered, '\n') {
        Some(rendered)
    } else {
        None
    }
}

/// One arm of a union as a block, the tag of an object first.
pub fn render_schema_with_priority(
    schema: &Schema,
    tag: &Option<String>,
    refs: &mut NameSet,
    style: &Style,
) -> (r: String)
    requires
        old(refs).wf(),
    ensures
        final(refs).wf(),
        final(refs)@ == old(refs)@.union(block_refs(*schema, tag_text(*tag))),
        r@ == block_variant(*schema, tag_text(*tag), style.enabled),
{
    assert(""@ =~= blanks(0)) by {
        reveal_strlit("");
    }
    let priority = priority_of(tag);
    match schema {
        Schema::Object(o) => {
            if tag.is_some() {
                render_object(o, &priority, refs, "", style)
            } else {
                render_schema(schema, refs, "", style)
            }
        },
        _ => render_schema(schema, refs, "", style),
    }
}

/// The body of the production for a union.
pub fn render_variants_production(
    variants: &Vec<&Schema>,
    tag: &Option<String>,
    refs: &mut NameSet,
    style: &Style,
) -> (r: String)
    requires
        old(refs).wf(),
    ensures
        final(refs).wf(),
        final(refs)@ == old(refs)@.union(
            variants_refs(targets(variants@), tag_text(*tag), style.enabled),
        ),
        r@ == variants_text(targets(variants@), tag_text(*tag), style.enabled),
{
    let ghost arms = targets(variants@);
    let ghost tagged = tag_text(*tag);
    let ghost on = style.enabled;
    let ghost inline_all = inline_variants(arms, tagged, on);
    let ghost f = |s: Schema| inline_refs(s, tagged);
    // Try inline rendering first.
    let mut rendered: Vec<String> = Vec::new();
    let mut all_inline = true;
    let mut any_object = false;
    let mut i: usize = 0;
    proof {
        assert(refs@ =~= old(refs)@.union(refs_of_all(arms.take(0), f)));
        assert(texts(rendered@) =~= inline_all.take(0));
    }
    while i < variants.len()
        invariant
            i <= variants.len(),
            arms == targets(variants@),
            tagged == tag_text(*tag),
            on == style.enabled,
            inline_all == inline_variants(arms, tagged, on),
            f == |s: Schema| inline_refs(s, tagged),
            refs.wf(),
            refs@ == old(refs)@.union(refs_of_all(arms.take(i as int), f)),
            all_inline == (forall|k: int|
                0 <= k < i ==> fits(#[trigger] inline_variant(arms[k], tagged, on), 76)),
            all_inline ==> texts(rendered@) == inline_all.take(i as int),
            all_inline ==> (any_object == (exists|k: int|
                0 <= k < i && (#[trigger] inline_all[k]).contains('{'))),
        decreases variants.len() - i,
    {
        assert(arms.take(i + 1).drop_last() =~= arms.take(i as int));
        assert(arms[i as int] == *variants[i as int]);
        let attempt = render_variant_inline(variants[i], tag, refs, style, 76);
        proof {
            assert(arms.take(i + 1).last() == arms[i as int]);
            assert(f(arms[i as int]) == inline_refs(arms[i as int], tagged));
            assert(refs@ =~= old(refs)@.union(refs_of_all(arms.take(i + 1), f)));
        }
        match attempt {
            Some(t) => {
                assert(t@ == inline_all[i as int]);
                if has_char(&t, '{') {
                    any_object = true;
                }
                let ghost before = rendered@;
                rendered.push(t);
                proof {
                    lemma_texts_push(before, t);
                    assert(inline_all.take(i + 1) =~= inline_all.take(i as int).push(
                        inline_all[i as int],
                    ));
                }
            },
            None => {
                assert(!fits(inline_variant(arms[i as int], tagged, on), 76));
                all_inline = false;
            },
        }
        i += 1;
    }
    assert(arms.take(arms.len() as int) =~= arms);
    let bar = style.bold_yellow("|");
    if all_inline {
        assert(all_fit(arms, tagged, on));
        assert(inline_all.take(arms.len() as int) =~= inline_all);
        let single_line = join(&rendered, &cat3(" ", &bar, " "));
        // Collapse purely-scalar unions to one line. Keep object unions an
        // alternative to a row.
        if !any_object && plain_len(&single_line) <= 80 {
            return single_line;
        }
        let sep = cat3("\n", &bar, " ");
        return cat("  ", &join(&rendered, &sep));
    }
    assert(!all_fit(arms, tagged, on));
    // Block style fallback (each variant as a full object).
    let ghost block_all = block_variants(arms, tagged, on);
    let ghost g = |s: Schema| block_refs(s, tagged);
    let ghost between = refs@;
    let mut blocks: Vec<String> = Vec::new();
    let mut k: usize = 0;
    proof {
        assert(refs@ =~= between.union(refs_of_all(arms.take(0), g)));
        assert(texts(blocks@) =~= block_all.take(0));
    }
    while k < variants.len()
        invariant
            k <= variants.len(),
            arms == targets(variants@),
            tagged == tag_text(*tag),
            on == style.enabled,
            block_all == block_variants(arms, tagged, on),
            g == |s: Schema| block_refs(s, tagged),
            refs.wf(),
            refs@ == between.union(refs_of_all(arms.take(k as int), g)),
            texts(blocks@) == block_all.take(k as int),
        decreases variants.len() - k,
    {
        assert(arms.take(k + 1).drop_last() =~= arms.take(k as int));
        assert(arms[k as int] == *variants[k as int]);
        let block = render_schema_with_priority(variants[k], tag, refs, style);
        let ghost before = blocks@;
        blocks.push(block);
        proof {
            assert(arms.take(k + 1).last() == arms[k as int]);
            assert(g(arms[k as int]) == block_refs(arms[k as int], tagged));
            assert(refs@ =~= between.union(refs_of_all(arms.take(k + 1), g)));
            lemma_texts_push(before, block);
            assert(block_all.take(k + 1) =~= block_all.take(k as int).push(block_all[k as int]));
        }
        k += 1;
    }
    proof {
        assert(arms.take(arms.len() as int) =~= arms);
        assert(block_all.take(arms.len() as int) =~= block_all);
        assert(refs@ =~= old(refs)@.union(variants_refs(arms, tagged, on)));
    }
    let sep = cat3("\n", &bar, " ");
    join(&blocks, &sep)
}

/// The names in `set` but for `name`, in ascending order.
fn others(set: &NameSet, name: &str) -> (r: Vec<String>)
    requires
        set.wf(),
    ensures
        texts(r@) == listed(set@.remove(name@)),
{
    let ghost all = texts(set.names@);
    let mut r: Vec<String> = Vec::new();
    let mut i: usize = 0;
    while i < set.names.len()
        invariant
            all == texts(set.names@),
            ascending(all),
            i <= all.len(),
            ascending(texts(r@)),
            forall|k: int|
                0 <= k < r.len() ==> (#[trigger] r@[k])@ != name@ && all.take(i as int).contains(
                    r@[k]@,
                ),
            forall|j: int|
                0 <= j < i && all[j] != name@ ==> texts(r@).contains(#[trigger] all[j]),
        decreases set.names.len() - i,
    {
        let ghost before = r@;
        let ghost upto = all.take(i as int);
        let ghost next = all.take(i + 1);
        assert(next =~= upto.push(all[i as int]));
        if !same(&set.names[i], name) {
            r.push(set.names[i].clone());
            proof {
                let x = set.names@[i as int]@;
                assert(texts(r@) =~= texts(before).push(x));
                assert forall|a: int, b: int| 0 <= a < b < r.len() implies name_lt(
                    texts(r@)[a],
                    texts(r@)[b],
                ) by {
                    if b == before.len() {
                        assert(upto.contains(before[a]@));
                        let j = choose|j: int| 0 <= j < upto.len() && upto[j] == before[a]@;
                        assert(name_lt(all[j], all[i as int]));
                    } else {
                        assert(name_lt(texts(before)[a], texts(before)[b]));
                    }
                }
                assert(texts(r@)[before.len() as int] == x);
            }
        }
        proof {
            assert forall|k: int| 0 <= k < r.len() implies (#[trigger] r@[k])@ != name@
                && next.contains(r@[k]@) by {
                if k < before.len() {
                    assert(r@[k] == before[k]);
                    let j = choose|j: int| 0 <= j < upto.len() && upto[j] == before[k]@;
                    assert(next[j] == before[k]@);
                } else {
                    assert(next[i as int] == r@[k]@);
                }
            }
            assert forall|j: int| 0 <= j < i + 1 && all[j] != name@ implies texts(r@).contains(
                #[trigger] all[j],
            ) by {
                if j < i {
                    let k = choose|k: int| 0 <= k < before.len() && texts(before)[k] == all[j];
                    assert(texts(r@)[k] == all[j]);
                }
            }
        }
        i += 1;
    }
    proof {
        let mine = texts(r@);
        let want = set@.remove(name@);
        assert forall|x: Seq<char>| mine.to_set().contains(x) <==> want.contains(x) by {
            if mine.contains(x) {
                let k = choose|k: int| 0 <= k < mine.len() && mine[k] == x;
                assert(r@[k]@ == x);
                assert(all.take(i as int) =~= all);
            }
            if want.contains(x) {
                let j = choose|j: int| 0 <= j < all.len() && all[j] == x;
                assert(mine.contains(all[j]));
            }
        }
        assert(mine.to_set() =~= want);
        lemma_ascending_unique(mine, listed(want));
    }
    r
}

/// The remark on the types that use a name.
fn users_remark(names: &Vec<String>) -> (r: String)
    ensures
        r@ == used_by(texts(names@)),
{
    let ghost all = texts(names@);
    let mut first: Vec<String> = Vec::new();
    while first.len() < names.len() && first.len() < 3
        invariant
            all == texts(names@),
            first.len() <= names.len(),
            first.len() <= 3,
            texts(first@) == all.take(first.len() as int),
        decreases 3 - first.len(),
    {
        let i = first.len();
        let ghost before = first@;
        first.push(names[i].clone());
        proof {
            assert(texts(first@) =~= texts(before).push(all[i as int]));
            assert(all.take(i + 1) =~= all.take(i as int).push(all[i as int]));
        }
    }
    let mut text = cat("(used by: ", &join(&first, ", "));
    if names.len() > 3 {
        text.append(", +");
        text.append(&decimal_text(names.len() - 3));
        text.append(" more");
    }
    text.append(")");
    text
}

/// The schema object that a production shows.
fn effective_object(o: &SchemaObject) -> (r: &SchemaObject)
    ensures
        *r == effective(*o),
{
    if let Some(sub) = &o.subschemas {
        if let Some(all) = &sub.all_of {
            if all.len() == 1 {
                if let Schema::Object(inner) = &all[0] {
                    return inner;
                }
            }
        }
    }
    o
}

/// The production for a schema object: its head, with what there is to remark, and
/// its body.
pub fn render_object_production(
    name: &str,
    o: &SchemaObject,
    is_root: bool,
    usage_map: &NameMap<NameSet>,
    refs: &mut NameSet,
    style: &Style,
) -> (r: String)
    requires
        in_order(*usage_map),
        old(refs).wf(),
    ensures
        final(refs).wf(),
        final(refs)@ == old(refs)@.union(body_refs(*o, style.enabled)),
        r@ == object_production(name@, *o, is_root, kept(*usage_map, name@), style.enabled),
{
    let ghost on = style.enabled;
    let ghost users = kept(*usage_map, name@);
    let effective = effective_object(o);
    let oneof_variants = non_null_variants(effective);

    // Header annotations.
    let mut annotations: Vec<String> = Vec::new();
    let ghost names = listed(users.remove(name@));
    if is_root {
        annotations.push(style.dim("(root)"));
        assert(texts(annotations@) =~= seq![dimmed(on, "(root)"@)]);
    } else {
        match usage_map.position(name) {
            Some(i) => {
                assert(usage_map.entries@[i as int].1.wf());
                let users_vec = others(&usage_map.entries[i].1, name);
                assert(names == texts(users_vec@));
                assert(names.len() == users_vec.len());
                if users_vec.len() > 0 {
                    annotations.push(style.dim(&users_remark(&users_vec)));
                    assert(texts(annotations@) =~= seq![dimmed(on, used_by(names))]);
                } else {
                    assert(texts(annotations@) =~= Seq::<Seq<char>>::empty());
                }
            },
            None => {
                proof {
                    let none = Seq::<Seq<char>>::empty();
                    assert(none.to_set() =~= users.remove(name@));
                    lemma_ascending_unique(none, names);
                    assert(texts(annotations@) =~= none);
                }
            },
        }
    }
    let tag = match &oneof_variants {
        Some(v) => detect_tag(v.as_slice()),
        None => None,
    };
    assert(tag_text(tag) == shown_tag(*o));
    if let Some(t) = &tag {
        let ghost before = annotations@;
        annotations.push(style.dim(&cat3("(tagged on `", t, "`)")));
        assert(texts(annotations@) =~= texts(before).push(
            dimmed(on, "(tagged on `"@ + t@ + "`)"@),
        ));
    }
    assert(texts(annotations@) == remarks(name@, *o, is_root, users, on));
    assert(texts(annotations@).len() == annotations.len());
    let mut header = cat3(&style.bold(name), " ", &style.dim("::="));
    if annotations.len() > 0 {
        header.append("  ");
        header.append(&join(&annotations, "  "));
    }

    // Body.
    assert(""@ =~= blanks(0)) by {
        reveal_strlit("");
    }
    let body = match &oneof_variants {
        Some(variants) => {
            assert(targets(variants@).len() == variants.len());
            if variants.len() > 1 {
                render_variants_production(variants, &tag, refs, style)
            } else if variants.len() == 1 {
                assert(targets(variants@)[0] == *variants[0]);
                render_schema(variants[0], refs, "", style)
            } else {
                render_schema_object(o, refs, "", style)
            }
        },
        None => render_schema_object(o, refs, "", style),
    };
    header.append("\n");
    header.append(&body);
    header.append("\n");
    header
}

/// The production that shows `schema` under the name `name`, and the names it refers
/// to, added to `refs`.
pub fn render_production(
    name: &str,
    schema: &Schema,
    usage_map: &NameMap<NameSet>,
    refs: &mut NameSet,
    style: &Style,
) -> (r: String)
    requires
        in_order(*usage_map),
        old(refs).wf(),
    ensures
        final(refs).wf(),
        final(refs)@ == old(refs)@.union(production_refs(*schema, style.enabled)),
        r@ == production(name@, *schema, kept(*usage_map, name@), style.enabled),
{
    match schema {
        Schema::Object(o) => render_object_production(name, o, false, usage_map, refs, style),
        Schema::Bool(_) => {
            assert(""@ =~= blanks(0)) by {
                reveal_strlit("");
            }
            let text = render_schema(schema, refs, "", style);
            let mut r = cat3(&style.bold(name), " ", &style.dim("::="));
            r.append(" ");
            r.append(&text);
            r.append("\n");
            r
        },
    }
}

} // verus!
