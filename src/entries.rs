//! Command-line context entries of the form `name=value`, and folding them into a context.
use crate::context::Context;
use crate::engine::render_fragment;
use crate::text::{split_first, split_first_str};
use handlebars::{Handlebars, RenderError};
use vstd::prelude::*;
use vstd::string::{StrSliceExecFns, StringExecFns};

verus! {

/// Why a context could not be built.
#[derive(Debug)]
pub enum ContextError {
    /// An entry or a context-file line without `=`; holds the offending text.
    Malformed(String),
    /// A templated entry value failed to render.
    Render(RenderError),
    /// A structured context file could not be read as a flat string mapping.
    Yaml(serde_yaml::Error),
}

/// Name and raw value of an entry: the text before and after its first `=`.
pub open spec fn entry_parts(e: Seq<char>) -> Option<(Seq<char>, Seq<char>)> {
    split_first(e, '=')
}

/// The name of a well-formed entry.
pub open spec fn entry_name(e: Seq<char>) -> Seq<char> {
    match entry_parts(e) {
        Some(p) => p.0,
        None => Seq::empty(),
    }
}

/// The raw value of a well-formed entry.
pub open spec fn entry_raw_value(e: Seq<char>) -> Seq<char> {
    match entry_parts(e) {
        Some(p) => p.1,
        None => Seq::empty(),
    }
}

/// A value that is rendered as a template before it is stored: it starts with `{{`
/// or with the escaped form `\{{`.
pub open spec fn is_fragment(v: Seq<char>) -> bool {
    (v.len() >= 2 && v[0] == '{' && v[1] == '{') || (v.len() >= 3 && v[0] == '\\' && v[1] == '{'
        && v[2] == '{')
}

/// The value stored for an entry whose raw value is `raw`, where `rendered` is what
/// rendering it gave.
pub open spec fn stored_value(raw: Seq<char>, rendered: Seq<char>) -> Seq<char> {
    if is_fragment(raw) {
        rendered
    } else {
        raw
    }
}

/// Every entry holds a `=`.
pub open spec fn all_well_formed(es: Seq<String>) -> bool {
    forall|i: int| 0 <= i < es.len() ==> (#[trigger] entry_parts(es[i]@)) is Some
}

/// No entry's value is a template fragment.
pub open spec fn no_fragments(es: Seq<String>) -> bool {
    forall|i: int|
        0 <= i < es.len() ==> match #[trigger] entry_parts(es[i]@) {
            Some(p) => !is_fragment(p.1),
            None => true,
        }
}

/// Entry `i` is the first one without a `=`.
pub open spec fn first_malformed(es: Seq<String>, i: int) -> bool {
    &&& 0 <= i < es.len()
    &&& entry_parts(es[i]@) is None
    &&& forall|j: int| 0 <= j < i ==> (#[trigger] entry_parts(es[j]@)) is Some
}

/// The mapping `m` after the entries `es` are applied in order, where `rendered[i]` is
/// what the value of entry `i` rendered to (used only when that value is a fragment).
pub open spec fn apply_entries(
    m: Map<Seq<char>, Seq<char>>,
    es: Seq<String>,
    rendered: Seq<Seq<char>>,
) -> Map<Seq<char>, Seq<char>>
    decreases es.len(),
{
    if es.len() == 0 {
        m
    } else {
        let prev = apply_entries(m, es.drop_last(), rendered.drop_last());
        match entry_parts(es.last()@) {
            Some(p) => prev.insert(p.0, stored_value(p.1, rendered.last())),
            None => prev,
        }
    }
}

/// Splits an entry at its first `=` into name and raw value.
pub fn split_entry(entry: &str) -> (r: Result<(String, String), ContextError>)
    ensures
        match entry_parts(entry@) {
            Some(p) => r matches Ok((k, v)) && k@ == p.0 && v@ == p.1,
            None => r matches Err(ContextError::Malformed(e)) && e@ == entry@,
        },
{
    match split_first_str(entry, '=') {
        Some((k, v)) => Ok((String::from_str(k), String::from_str(v))),
        None => Err(ContextError::Malformed(String::from_str(entry))),
    }
}

/// Whether `value` is rendered as a template before it is stored.
pub fn is_template_fragment(value: &str) -> (r: bool)
    ensures
        r == is_fragment(value@),
{
    let n = value.unicode_len();
    if n >= 2 && value.get_char(0) == '{' && value.get_char(1) == '{' {
        true
    } else {
        n >= 3 && value.get_char(0) == '\\' && value.get_char(1) == '{' && value.get_char(2) == '{'
    }
}

/// Stores one entry whose name is `key` and raw value `raw`. `rendered` is what rendering
/// `raw` gave, present exactly when `raw` is a template fragment; it is stored in place of
/// the raw value. An earlier binding of `key` is replaced.
pub fn apply_entry(ctx: Context, key: String, raw: String, rendered: Option<String>) -> (r: Context)
    requires
        ctx.wf(),
        rendered is Some <==> is_fragment(raw@),
    ensures
        r.wf(),
        r@ == ctx@.insert(
            key@,
            match rendered {
                Some(s) => s@,
                None => raw@,
            },
        ),
{
    let mut ctx = ctx;
    match rendered {
        Some(s) => ctx.insert(key, s),
        None => ctx.insert(key, raw),
    }
    ctx
}

/// Applies the entries to `base` in order. Each entry is split at its first `=`; a value
/// that is a template fragment is rendered against the context built so far, any other
/// value is stored as it is. A later entry replaces an earlier binding of its name.
pub fn build_context(engine: &Handlebars<'_>, base: Context, entries: &Vec<String>) -> (r: Result<
    Context,
    ContextError,
>)
    requires
        base.wf(),
    ensures
        r matches Ok(c) ==> {
            &&& c.wf()
            &&& all_well_formed(entries@)
            &&& exists|rendered: Seq<Seq<char>>|
                rendered.len() == entries@.len() && c@ == apply_entries(base@, entries@, rendered)
        },
        no_fragments(entries@) ==> (r is Ok <==> all_well_formed(entries@)),
        r matches Err(ContextError::Malformed(e)) ==> exists|i: int|
            first_malformed(entries@, i) && e@ == entries@[i]@,
        forall|i: int|
            first_malformed(entries@, i) && (forall|j: int|
                0 <= j < i ==> !is_fragment(#[trigger] entry_raw_value(entries@[j]@))) ==> (r matches Err(
                ContextError::Malformed(e),
            ) && e@ == entries@[i]@),
        r matches Err(ContextError::Render(_)) ==> exists|j: int|
            0 <= j < entries@.len() && is_fragment(entry_raw_value(entries@[j]@)) && forall|k: int|
                0 <= k < j ==> (#[trigger] entry_parts(entries@[k]@)) is Some,
        !(r matches Err(ContextError::Yaml(_))),
{
    let mut ctx = base;
    let n = entries.len();
    let mut i: usize = 0;
    let ghost mut rendered: Seq<Seq<char>> = Seq::empty();
    while i < n
        invariant
            n == entries@.len(),
            i <= n,
            ctx.wf(),
            rendered.len() == i,
            ctx@ == apply_entries(base@, entries@.subrange(0, i as int), rendered),
            forall|j: int| 0 <= j < i ==> (#[trigger] entry_parts(entries@[j]@)) is Some,
        decreases n - i,
    {
        let ghost prefix = entries@.subrange(0, i as int + 1);
        assert(prefix.drop_last() =~= entries@.subrange(0, i as int));
        match split_entry(entries[i].as_str()) {
            Err(e) => {
                assert(first_malformed(entries@, i as int));
                assert forall|m: int| first_malformed(entries@, m) implies m == i by {
                    if m < i {
                        assert(entry_parts(entries@[m]@) is Some);
                    } else if m > i {
                        assert(entry_parts(entries@[i as int]@) is None);
                    }
                }
                return Err(e);
            },
            Ok((key, raw)) => {
                let rendered_value = if is_template_fragment(raw.as_str()) {
                    match render_fragment(engine, raw.as_str(), &ctx) {
                        Ok(s) => Some(s),
                        Err(e) => {
                            assert(is_fragment(entry_raw_value(entries@[i as int]@)));
                            assert forall|m: int|
                                first_malformed(entries@, m) && (forall|j: int|
                                    0 <= j < m ==> !is_fragment(
                                        #[trigger] entry_raw_value(entries@[j]@),
                                    )) implies false by {
                                if m <= i {
                                    assert(entry_parts(entries@[m]@) is Some);
                                }
                            }
                            return Err(ContextError::Render(e));
                        },
                    }
                } else {
                    None
                };
                let ghost stored = if rendered_value is Some {
                    rendered_value->0@
                } else {
                    raw@
                };
                let ghost old_rendered = rendered;
                proof {
                    rendered = rendered.push(stored);
                    assert(rendered.drop_last() =~= old_rendered);
                    assert(prefix.last() == entries@[i as int]);
                }
                ctx = apply_entry(ctx, key, raw, rendered_value);
            },
        }
        i = i + 1;
    }
    assert(entries@.subrange(0, n as int) =~= entries@);
    Ok(ctx)
}

} // verus!

verus! {

/// The binding of a name is decided by the last entry that names it: its raw value,
/// verbatim, unless that value is a template fragment, in which case what it rendered to.
/// This holds over the starting map too, so entries replace what a context file gave.
pub proof fn lemma_last_entry_wins(
    m: Map<Seq<char>, Seq<char>>,
    es: Seq<String>,
    rendered: Seq<Seq<char>>,
    i: int,
)
    requires
        0 <= i < es.len(),
        rendered.len() == es.len(),
        entry_parts(es[i]@) is Some,
        forall|j: int|
            i < j < es.len() ==> match #[trigger] entry_parts(es[j]@) {
                Some(p) => p.0 != entry_name(es[i]@),
                None => true,
            },
    ensures
        apply_entries(m, es, rendered).contains_key(entry_name(es[i]@)),
        apply_entries(m, es, rendered)[entry_name(es[i]@)] == stored_value(
            entry_raw_value(es[i]@),
            rendered[i],
        ),
        !is_fragment(entry_raw_value(es[i]@)) ==> apply_entries(m, es, rendered)[entry_name(
            es[i]@,
        )] == entry_raw_value(es[i]@),
    decreases es.len(),
{
    let k = entry_name(es[i]@);
    if i == es.len() - 1 {
    } else {
        let es2 = es.drop_last();
        let r2 = rendered.drop_last();
        assert forall|j: int| i < j < es2.len() implies match #[trigger] entry_parts(es2[j]@) {
            Some(p) => p.0 != k,
            None => true,
        } by {
            assert(es2[j] == es[j]);
        }
        lemma_last_entry_wins(m, es2, r2, i);
        assert(es.last() == es[es.len() - 1]);
    }
}

/// A name that no entry sets keeps its binding, or its absence, from the starting map.
pub proof fn lemma_unnamed_key_kept(
    m: Map<Seq<char>, Seq<char>>,
    es: Seq<String>,
    rendered: Seq<Seq<char>>,
    k: Seq<char>,
)
    requires
        forall|j: int|
            0 <= j < es.len() ==> match #[trigger] entry_parts(es[j]@) {
                Some(p) => p.0 != k,
                None => true,
            },
    ensures
        apply_entries(m, es, rendered).contains_key(k) == m.contains_key(k),
        m.contains_key(k) ==> apply_entries(m, es, rendered)[k] == m[k],
    decreases es.len(),
{
    if es.len() > 0 {
        let es2 = es.drop_last();
        assert forall|j: int| 0 <= j < es2.len() implies match #[trigger] entry_parts(es2[j]@) {
            Some(p) => p.0 != k,
            None => true,
        } by {
            assert(es2[j] == es[j]);
        }
        lemma_unnamed_key_kept(m, es2, rendered.drop_last(), k);
        assert(es.last() == es[es.len() - 1]);
    }
}

/// Without template fragments the result does not depend on anything rendered: the same
/// starting map and entries always give the same context.
pub proof fn lemma_plain_entries_deterministic(
    m: Map<Seq<char>, Seq<char>>,
    es: Seq<String>,
    r1: Seq<Seq<char>>,
    r2: Seq<Seq<char>>,
)
    requires
        no_fragments(es),
    ensures
        apply_entries(m, es, r1) == apply_entries(m, es, r2),
    decreases es.len(),
{
    if es.len() > 0 {
        let es2 = es.drop_last();
        assert forall|j: int| 0 <= j < es2.len() implies match #[trigger] entry_parts(es2[j]@) {
            Some(p) => !is_fragment(p.1),
            None => true,
        } by {
            assert(es2[j] == es[j]);
        }
        lemma_plain_entries_deterministic(m, es2, r1.drop_last(), r2.drop_last());
        assert(es.last() == es[es.len() - 1]);
    }
}

} // verus!
