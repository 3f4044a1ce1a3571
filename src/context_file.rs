//! Reading a context file: the simple `key=value` line format, and a flat YAML mapping.
use crate::context::{keys_distinct, pairs_map, Context};
use crate::entries::ContextError;
use crate::text::{is_first, lemma_first_unique, split_first, split_first_str, trim, trim_str};
use std::collections::HashMap;
use vstd::prelude::*;
use vstd::string::{StrSliceExecFns, StringExecFns};

verus! {

#[verifier::external_type_specification]
#[verifier::external_body]
pub struct ExYamlError(serde_yaml::Error);

/// A line that carries no entry: blank, or a comment whose first non-blank character is `#`.
pub open spec fn is_skipped(line: Seq<char>) -> bool {
    trim(line).len() == 0 || trim(line)[0] == '#'
}

/// The key and value of an entry line: the trimmed text before and after its first `=`.
pub open spec fn line_pair(line: Seq<char>) -> Option<(Seq<char>, Seq<char>)> {
    match split_first(line, '=') {
        Some(p) => Some((trim(p.0), trim(p.1))),
        None => None,
    }
}

/// What one line contributes: nothing, one pair, or the line itself as an error.
pub open spec fn line_result(line: Seq<char>) -> Result<Seq<(Seq<char>, Seq<char>)>, Seq<char>> {
    if is_skipped(line) {
        Ok(Seq::empty())
    } else {
        match line_pair(line) {
            Some(p) => Ok(seq![p]),
            None => Err(line),
        }
    }
}

/// `d` followed by the pairs of `r`, or the error of `r`.
pub open spec fn prepend(
    d: Seq<(Seq<char>, Seq<char>)>,
    r: Result<Seq<(Seq<char>, Seq<char>)>, Seq<char>>,
) -> Result<Seq<(Seq<char>, Seq<char>)>, Seq<char>> {
    match r {
        Ok(t) => Ok(d + t),
        Err(l) => Err(l),
    }
}

/// The pairs of a simple-format file, in order, or its first line that is neither
/// skipped nor holds a `=`. Lines end at `\n`.
pub open spec fn file_pairs(s: Seq<char>) -> Result<Seq<(Seq<char>, Seq<char>)>, Seq<char>>
    decreases s.len(),
{
    match split_first(s, '\n') {
        Some(p) => match line_result(p.0) {
            Ok(h) => prepend(h, file_pairs(p.1)),
            Err(l) => Err(l),
        },
        None => line_result(s),
    }
}

/// The map that inserting the pairs in order into `m` gives.
pub open spec fn fold_pairs(
    m: Map<Seq<char>, Seq<char>>,
    ps: Seq<(Seq<char>, Seq<char>)>,
) -> Map<Seq<char>, Seq<char>>
    decreases ps.len(),
{
    if ps.len() == 0 {
        m
    } else {
        fold_pairs(m, ps.drop_last()).insert(ps.last().0, ps.last().1)
    }
}

/// The flat string-to-string mapping that a YAML document denotes, if it denotes one.
pub uninterp spec fn yaml_string_map(s: Seq<char>) -> Option<Map<Seq<char>, Seq<char>>>;

/// Relies on `serde_yaml::from_str::<HashMap<String, String>>`: it succeeds exactly when the
/// document is a flat mapping of strings, and the map's pairs, each key once, are handed on.
#[verifier::external_body]
fn yaml_pairs(text: &str) -> (r: Result<Vec<(String, String)>, serde_yaml::Error>)
    ensures
        r is Ok <==> yaml_string_map(text@) is Some,
        r matches Ok(ps) ==> keys_distinct(ps@) && pairs_map(ps@) == yaml_string_map(text@)->0,
{
    serde_yaml::from_str::<HashMap<String, String>>(text).map(|m| m.into_iter().collect())
}

/// A context holding the given pairs, a later pair replacing an earlier one of the same key.
pub fn context_from_pairs(pairs: Vec<(String, String)>) -> (r: Context)
    ensures
        r.wf(),
        r@ == pairs_map(pairs@),
{
    let mut ctx = Context::new();
    let n = pairs.len();
    let mut i: usize = 0;
    while i < n
        invariant
            n == pairs@.len(),
            i <= n,
            ctx.wf(),
            ctx@ == pairs_map(pairs@.subrange(0, i as int)),
        decreases n - i,
    {
        assert(pairs@.subrange(0, i as int + 1).drop_last() =~= pairs@.subrange(0, i as int));
        let k = pairs[i].0.clone();
        let v = pairs[i].1.clone();
        ctx.insert(k, v);
        i = i + 1;
    }
    assert(pairs@.subrange(0, n as int) =~= pairs@);
    ctx
}

/// Reads a YAML document holding a flat mapping of strings into a context.
pub fn parse_yaml_context(text: &str) -> (r: Result<Context, ContextError>)
    ensures
        r is Ok <==> yaml_string_map(text@) is Some,
        r matches Ok(c) ==> c.wf() && c@ == yaml_string_map(text@)->0,
        r is Err ==> r matches Err(ContextError::Yaml(_)),
{
    match yaml_pairs(text) {
        Ok(ps) => Ok(context_from_pairs(ps)),
        Err(e) => Err(ContextError::Yaml(e)),
    }
}

/// Reads a simple-format context file: one `key=value` per line, key and value trimmed,
/// blank lines and `#` comments skipped. A later line replaces an earlier one of the same key.
pub fn parse_simple_context(text: &str) -> (r: Result<Context, ContextError>)
    ensures
        match file_pairs(text@) {
            Ok(ps) => r matches Ok(c) && c.wf() && c@ == fold_pairs(Map::empty(), ps),
            Err(l) => r matches Err(ContextError::Malformed(e)) && e@ == l,
        },
{
    let mut ctx = Context::new();
    let mut rest: &str = text;
    let mut more = true;
    let ghost mut done: Seq<(Seq<char>, Seq<char>)> = Seq::empty();
    while more
        invariant
            ctx.wf(),
            ctx@ == fold_pairs(Map::empty(), done),
            more ==> file_pairs(text@) == prepend(done, file_pairs(rest@)),
            !more ==> file_pairs(text@) == Ok::<Seq<(Seq<char>, Seq<char>)>, Seq<char>>(done),
        decreases rest@.len() + if more { 1int } else { 0int },
    {
        let (line, tail, last) = match split_first_str(rest, '\n') {
            Some((l, t)) => (l, t, false),
            None => (rest, rest, true),
        };
        let ghost old_done = done;
        let ghost mut h: Seq<(Seq<char>, Seq<char>)> = Seq::empty();
        let t = trim_str(line);
        if t.unicode_len() == 0 || t.get_char(0) == '#' {
            assert(is_skipped(line@));
        } else {
            match split_first_str(line, '=') {
                Some((k, v)) => {
                    let key = String::from_str(trim_str(k));
                    let value = String::from_str(trim_str(v));
                    proof {
                        done = done.push((key@, value@));
                        h = seq![(key@, value@)];
                        assert(done.drop_last() =~= old_done);
                        assert(line_pair(line@) == Some((key@, value@)));
                    }
                    ctx.insert(key, value);
                },
                None => {
                    return Err(ContextError::Malformed(String::from_str(line)));
                },
            }
        }
        proof {
            assert(done =~= old_done + h);
            assert(line_result(line@) == Ok::<Seq<(Seq<char>, Seq<char>)>, Seq<char>>(h));
            if !last {
                match file_pairs(tail@) {
                    Ok(x) => {
                        assert(old_done + (h + x) =~= done + x);
                    },
                    Err(_) => {},
                }
            } else {
                assert(old_done + h =~= done);
            }
        }
        if last {
            more = false;
        } else {
            rest = tail;
        }
    }
    Ok(ctx)
}

} // verus!

verus! {

/// A file is read line by line: a first line `c` contributes what it yields by itself
/// (nothing when skipped, its trimmed pair when it holds a `=`, else it is the error),
/// followed by what the rest of the file yields; a file of one line yields that line's result.
pub proof fn lemma_file_pairs_by_line(c: Seq<char>, s: Seq<char>)
    requires
        !c.contains('\n'),
    ensures
        file_pairs(c + seq!['\n'] + s) == match line_result(c) {
            Ok(h) => prepend(h, file_pairs(s)),
            Err(l) => Err(l),
        },
        file_pairs(c) == line_result(c),
{
    let t = c + seq!['\n'] + s;
    let i = c.len() as int;
    assert(t[i] == '\n');
    assert forall|j: int| 0 <= j < i implies t[j] != '\n' by {
        assert(t[j] == c[j]);
    }
    assert(is_first(t, '\n', i));
    let k = choose|k: int| is_first(t, '\n', k);
    lemma_first_unique(t, '\n', i, k);
    assert(t.subrange(0, i) =~= c);
    assert(t.subrange(i + 1, t.len() as int) =~= s);
    assert(!exists|k: int| is_first(c, '\n', k));
}

/// In a file's map, a key is bound exactly when some pair names it, and to the value of
/// the last pair that names it.
pub proof fn lemma_fold_pairs_last_wins(
    m: Map<Seq<char>, Seq<char>>,
    ps: Seq<(Seq<char>, Seq<char>)>,
    i: int,
)
    requires
        0 <= i < ps.len(),
        forall|j: int| i < j < ps.len() ==> ps[j].0 != ps[i].0,
    ensures
        fold_pairs(m, ps).contains_key(ps[i].0),
        fold_pairs(m, ps)[ps[i].0] == ps[i].1,
    decreases ps.len(),
{
    if i < ps.len() - 1 {
        lemma_fold_pairs_last_wins(m, ps.drop_last(), i);
    }
}

/// A key that no pair names keeps its binding, or its absence, from the starting map.
pub proof fn lemma_fold_pairs_unnamed(
    m: Map<Seq<char>, Seq<char>>,
    ps: Seq<(Seq<char>, Seq<char>)>,
    k: Seq<char>,
)
    requires
        forall|j: int| 0 <= j < ps.len() ==> ps[j].0 != k,
    ensures
        fold_pairs(m, ps).contains_key(k) == m.contains_key(k),
        m.contains_key(k) ==> fold_pairs(m, ps)[k] == m[k],
    decreases ps.len(),
{
    if ps.len() > 0 {
        lemma_fold_pairs_unnamed(m, ps.drop_last(), k);
    }
}

/// A skipped line (blank or comment) in front of a file changes nothing that the file
/// yields: the same pairs, or the same offending line.
pub proof fn lemma_skipped_line_ignored(c: Seq<char>, s: Seq<char>)
    requires
        is_skipped(c),
        !c.contains('\n'),
    ensures
        file_pairs(c + seq!['\n'] + s) == file_pairs(s),
{
    lemma_file_pairs_by_line(c, s);
    match file_pairs(s) {
        Ok(x) => {
            assert(Seq::<(Seq<char>, Seq<char>)>::empty() + x =~= x);
        },
        Err(_) => {},
    }
}

} // verus!
