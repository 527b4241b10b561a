//! The namespace rewriter: a pass over serialized triple text that puts the
//! caller's base URI, and a label where one is given, in place of the
//! namespace that the converters generate.

use vstd::prelude::*;
use crate::text::{
    apart, chars_of, contains, lemma_contains_front, lemma_replace_absent, lemma_replace_keeps_out,
    lemma_replace_keeps_occurrence, lemma_replace_skips, occurs_at,
    overlap, push_chars, push_str_chars, replace_all, replace_chars, stays_apart, string_of,
};

verus! {

/// The namespace that the converters put in front of every URI they generate.
pub const DEFAULT_NAMESPACE: &'static str = "https://decisym.ai";

/// The characters of [`DEFAULT_NAMESPACE`].
pub open spec fn default_namespace() -> Seq<char> {
    "https://decisym.ai"@
}

/// `base` without the `#` characters at its end.
pub open spec fn trim_hashes(base: Seq<char>) -> Seq<char>
    decreases base.len(),
{
    if base.len() > 0 && base.last() == '#' {
        trim_hashes(base.drop_last())
    } else {
        base
    }
}

/// What stands for the root form `<namespace>#/` once a label is given.
pub open spec fn root_target(base: Seq<char>, label: Seq<char>) -> Seq<char> {
    base + "#"@ + label + "."@
}

/// What stands for the vocabulary form `<namespace>/xml2rdf/model#` once a label is given.
pub open spec fn model_target(base: Seq<char>, label: Seq<char>) -> Seq<char> {
    base + "/xml2rdf/model#"@ + label + "."@
}

/// The four ordered passes that run when a label is given, over a base that is
/// already trimmed: the root form, the vocabulary form, the bare namespace, and
/// last the separator left over after a `#`.
pub open spec fn rewrite_labelled(ttl: Seq<char>, base: Seq<char>, label: Seq<char>) -> Seq<char> {
    let ns = default_namespace();
    let rooted = replace_all(ttl, ns + "#/"@, root_target(base, label));
    let modelled = replace_all(rooted, ns + "/xml2rdf/model#"@, model_target(base, label));
    let rebased = replace_all(modelled, ns, base);
    replace_all(rebased, "#/"@, "#"@)
}

/// The rewritten text: the base is trimmed once, then either the four labelled
/// passes run or the single pass that rebases the bare namespace.
pub open spec fn rewrite(ttl: Seq<char>, base: Seq<char>, label: Option<Seq<char>>) -> Seq<char> {
    let b = trim_hashes(base);
    match label {
        Some(l) => rewrite_labelled(ttl, b, l),
        None => replace_all(ttl, default_namespace(), b),
    }
}

/// The characters of an optional label.
pub open spec fn label_chars(label: Option<&str>) -> Option<Seq<char>> {
    match label {
        Some(l) => Some(l@),
        None => None,
    }
}

/// The default namespace has eighteen characters and no `#` among them.
pub proof fn lemma_namespace_has_no_hash()
    ensures
        default_namespace().len() == 18,
        forall|k: int| 0 <= k < 18 ==> default_namespace()[k] != '#',
{
    reveal_strlit("https://decisym.ai");
    let ns = default_namespace();
    assert(ns.len() == 18);
    assert forall|k: int| 0 <= k < 18 implies ns[k] != '#' by {
        assert(ns =~= seq![
            'h', 't', 't', 'p', 's', ':', '/', '/', 'd', 'e', 'c', 'i', 's', 'y', 'm', '.', 'a', 'i',
        ]);
    }
}

/// A `#` put into a text cannot touch an occurrence of the default namespace.
pub proof fn lemma_hash_apart_from_namespace()
    ensures
        apart("#"@, default_namespace()),
{
    reveal_strlit("#");
    lemma_namespace_has_no_hash();
    let ns = default_namespace();
    let hash = "#"@;
    assert(hash.len() == 1 && hash[0] == '#');
    assert forall|k: int| 0 <= k < ns.len() implies !overlap(#[trigger] ns.skip(k), hash) by {
        let t = ns.skip(k);
        assert(t[0] == ns[k]);
        if overlap(t, hash) {
            if t.len() <= hash.len() {
                assert(hash.subrange(0, t.len() as int)[0] == t[0]);
            } else {
                assert(t.subrange(0, hash.len() as int)[0] == hash[0]);
            }
        }
    }
    assert forall|j: int| 0 <= j < hash.len() implies !overlap(#[trigger] hash.skip(j), ns) by {
        let t = hash.skip(j);
        assert(t[0] == '#');
        if overlap(t, ns) {
            assert(ns.subrange(0, t.len() as int)[0] == t[0]);
        }
    }
}

/// No rewritten text holds the default namespace, where the trimmed base stays
/// apart from it: the base is not empty, and no tail of either of the two begins
/// with the other or begins the other. The label is free.
pub proof fn law_no_default_namespace_left(
    ttl: Seq<char>,
    base: Seq<char>,
    label: Option<Seq<char>>,
)
    requires
        apart(trim_hashes(base), default_namespace()),
    ensures
        !contains(rewrite(ttl, base, label), default_namespace()),
{
    let ns = default_namespace();
    let b = trim_hashes(base);
    lemma_namespace_has_no_hash();
    match label {
        Some(l) => {
            let rooted = replace_all(ttl, ns + "#/"@, root_target(b, l));
            let modelled = replace_all(rooted, ns + "/xml2rdf/model#"@, model_target(b, l));
            let rebased = replace_all(modelled, ns, b);
            lemma_replace_keeps_out(modelled, ns, b, ns);
            lemma_hash_apart_from_namespace();
            reveal_strlit("#/");
            lemma_replace_keeps_out(rebased, "#/"@, "#"@, ns);
        },
        None => {
            lemma_replace_keeps_out(ttl, ns, b, ns);
        },
    }
}

/// The default namespace begins with an `h` and holds no other.
pub proof fn lemma_namespace_first_is_unique()
    ensures
        default_namespace().len() == 18,
        default_namespace()[0] == 'h',
        forall|k: int| 1 <= k < 18 ==> default_namespace()[k] != 'h',
{
    reveal_strlit("https://decisym.ai");
    let ns = default_namespace();
    assert(ns.len() == 18);
    assert(ns =~= seq![
        'h', 't', 't', 'p', 's', ':', '/', '/', 'd', 'e', 'c', 'i', 's', 'y', 'm', '.', 'a', 'i',
    ]);
}

/// The first `k` characters of the default namespace, then the namespace, then
/// a rest shorter than it: rebased, this is those characters, the base and the
/// rest.
pub proof fn lemma_rebase_framed(k: int, b: Seq<char>, rest: Seq<char>)
    requires
        0 <= k < 18,
        rest.len() < 18,
    ensures
        replace_all(
            default_namespace().subrange(0, k) + default_namespace() + rest,
            default_namespace(),
            b,
        ) == default_namespace().subrange(0, k) + b + rest,
{
    lemma_namespace_first_is_unique();
    let ns = default_namespace();
    let t = ns.subrange(0, k) + ns + rest;
    assert forall|i: int| 0 <= i < k implies !occurs_at(t, ns, i) by {
        if occurs_at(t, ns, i) {
            assert(t.subrange(i, i + 18)[k - i] == t[k]);
            assert(t[k] == ns[0]);
        }
    }
    lemma_replace_skips(t, ns, b, k);
    let mid = t.skip(k);
    assert(mid =~= ns + rest);
    assert(mid.subrange(0, 18) =~= ns);
    assert(mid.subrange(18, mid.len() as int) =~= rest);
    assert(replace_all(rest, ns, b) == rest);
    assert(replace_all(mid, ns, b) == b + rest);
    assert(t.subrange(0, k) =~= ns.subrange(0, k));
    assert(ns.subrange(0, k) + (b + rest) =~= ns.subrange(0, k) + b + rest);
}

/// A text made of characters of the default namespace that still holds the
/// namespace once rebased onto `b`, for a `b` that does not stay apart from it.
pub proof fn lemma_leaking_text(b: Seq<char>) -> (ttl: Seq<char>)
    requires
        !apart(b, default_namespace()),
    ensures
        forall|i: int| 0 <= i < ttl.len() ==> ttl[i] != '#',
        contains(replace_all(ttl, default_namespace(), b), default_namespace()),
{
    lemma_namespace_first_is_unique();
    lemma_namespace_has_no_hash();
    let ns = default_namespace();
    let (k, m, at): (int, int, int) = if b.len() == 0 {
        (1, 1, 0)
    } else if exists|k: int| 0 <= k < ns.len() && overlap(#[trigger] ns.skip(k), b) {
        let k = choose|k: int| 0 <= k < ns.len() && overlap(#[trigger] ns.skip(k), b);
        if ns.skip(k).len() <= b.len() {
            (k, 18, 0)
        } else {
            (k, k + b.len(), 0)
        }
    } else {
        assert(exists|j: int| 0 <= j < b.len() && overlap(#[trigger] b.skip(j), ns));
        let j = choose|j: int| 0 <= j < b.len() && overlap(#[trigger] b.skip(j), ns);
        if b.skip(j).len() <= ns.len() {
            (0, b.skip(j).len() as int, j)
        } else {
            (0, 18, j)
        }
    };
    let rest = ns.skip(m);
    let ttl = ns.subrange(0, k) + ns + rest;
    lemma_rebase_framed(k, b, rest);
    let out = replace_all(ttl, ns, b);
    assert(out == ns.subrange(0, k) + b + rest);
    assert(out.subrange(at, at + 18) =~= ns) by {
        assert forall|x: int| 0 <= x < 18 implies out[at + x] == ns[x] by {
            if b.len() == 0 {
            } else if at == 0 {
                let tail = ns.skip(k);
                if k <= x < k + b.len() {
                    if tail.len() <= b.len() {
                        assert(b.subrange(0, tail.len() as int)[x - k] == tail[x - k]);
                    } else {
                        assert(tail.subrange(0, b.len() as int)[x - k] == b[x - k]);
                    }
                }
            } else {
                let tail = b.skip(at);
                if tail.len() <= ns.len() {
                    if x < tail.len() {
                        assert(ns.subrange(0, tail.len() as int)[x] == tail[x]);
                    }
                } else {
                    assert(tail.subrange(0, 18)[x] == ns[x]);
                }
            }
        }
    }
    assert(occurs_at(out, ns, at));
    assert forall|i: int| 0 <= i < ttl.len() implies ttl[i] != '#' by {
        if i < k {
            assert(ttl[i] == ns[i]);
        } else if i < k + 18 {
            assert(ttl[i] == ns[i - k]);
        } else {
            assert(ttl[i] == ns[i - k - 18 + m]);
        }
    }
    ttl
}

/// Some text rewritten onto `base` holds the default namespace.
pub open spec fn leaks(base: Seq<char>, label: Option<Seq<char>>) -> bool {
    exists|ttl: Seq<char>| contains(#[trigger] rewrite(ttl, base, label), default_namespace())
}

/// A base that, once trimmed, does not stay apart from the default namespace
/// lets it through, whatever the label: some text rewritten onto it holds the
/// default namespace.
pub proof fn law_unsafe_base_leaks(base: Seq<char>, label: Option<Seq<char>>)
    requires
        !apart(trim_hashes(base), default_namespace()),
    ensures
        leaks(base, label),
{
    let ns = default_namespace();
    let b = trim_hashes(base);
    let ttl = lemma_leaking_text(b);
    let rebased = replace_all(ttl, ns, b);
    match label {
        Some(l) => {
            reveal_strlit("#/");
            reveal_strlit("/xml2rdf/model#");
            lemma_namespace_has_no_hash();
            lemma_namespace_first_is_unique();
            let root = ns + "#/"@;
            let model = ns + "/xml2rdf/model#"@;
            assert forall|i: int| !occurs_at(ttl, root, i) by {
                if occurs_at(ttl, root, i) {
                    assert(ttl.subrange(i, i + root.len())[18] == root[18]);
                }
            }
            assert forall|i: int| !occurs_at(ttl, model, i) by {
                if occurs_at(ttl, model, i) {
                    assert(ttl.subrange(i, i + model.len())[32] == model[32]);
                }
            }
            lemma_replace_absent(ttl, root, root_target(b, l));
            lemma_replace_absent(ttl, model, model_target(b, l));
            let at = choose|at: int| occurs_at(rebased, ns, at);
            lemma_replace_keeps_occurrence(rebased, "#/"@, "#"@, ns, at);
            assert(contains(rewrite(ttl, base, label), ns));
        },
        None => {
            assert(contains(rewrite(ttl, base, label), ns));
        },
    }
}

/// The three passes that look for the default namespace leave a text without
/// it as it is.
pub proof fn lemma_namespace_passes_skip(ttl: Seq<char>, b: Seq<char>, label: Seq<char>)
    requires
        !contains(ttl, default_namespace()),
    ensures
        replace_all(ttl, default_namespace() + "#/"@, root_target(b, label)) == ttl,
        replace_all(ttl, default_namespace() + "/xml2rdf/model#"@, model_target(b, label)) == ttl,
        replace_all(ttl, default_namespace(), b) == ttl,
        rewrite_labelled(ttl, b, label) == replace_all(ttl, "#/"@, "#"@),
{
    let ns = default_namespace();
    if contains(ttl, ns + "#/"@) {
        lemma_contains_front(ttl, ns, "#/"@);
    }
    lemma_replace_absent(ttl, ns + "#/"@, root_target(b, label));
    if contains(ttl, ns + "/xml2rdf/model#"@) {
        lemma_contains_front(ttl, ns, "/xml2rdf/model#"@);
    }
    lemma_replace_absent(ttl, ns + "/xml2rdf/model#"@, model_target(b, label));
    lemma_replace_absent(ttl, ns, b);
}

/// A text that holds no default namespace comes back as it went in, where no
/// label is given or the text holds no `/` directly after a `#`.
pub proof fn law_rewrite_of_clean_text(ttl: Seq<char>, base: Seq<char>, label: Option<Seq<char>>)
    requires
        !contains(ttl, default_namespace()),
        label is None || !contains(ttl, "#/"@),
    ensures
        rewrite(ttl, base, label) == ttl,
{
    let ns = default_namespace();
    let b = trim_hashes(base);
    match label {
        Some(l) => {
            lemma_namespace_passes_skip(ttl, b, l);
            lemma_replace_absent(ttl, "#/"@, "#"@);
        },
        None => {
            lemma_replace_absent(ttl, ns, b);
        },
    }
}

/// Rewriting a rewritten text once more onto the same base changes nothing,
/// where the trimmed base stays apart from the default namespace and either no
/// label is given or the rewritten text holds no `/` directly after a `#`.
pub proof fn law_rewrite_twice(ttl: Seq<char>, base: Seq<char>, label: Option<Seq<char>>)
    requires
        apart(trim_hashes(base), default_namespace()),
        label is None || !contains(rewrite(ttl, base, label), "#/"@),
    ensures
        rewrite(rewrite(ttl, base, label), base, label) == rewrite(ttl, base, label),
{
    law_no_default_namespace_left(ttl, base, label);
    law_rewrite_of_clean_text(rewrite(ttl, base, label), base, label);
}

/// With a label, a text that holds a `/` directly after a `#` and no default
/// namespace does not come back as it went in: the last pass shortens it.
pub proof fn law_separator_is_dropped(ttl: Seq<char>, base: Seq<char>, label: Seq<char>)
    requires
        !contains(ttl, default_namespace()),
        contains(ttl, "#/"@),
    ensures
        rewrite(ttl, base, Some(label)) != ttl,
{
    let ns = default_namespace();
    let b = trim_hashes(base);
    lemma_namespace_passes_skip(ttl, b, label);
    reveal_strlit("#/");
    reveal_strlit("#");
    crate::text::lemma_replace_shortens(ttl, "#/"@, "#"@);
}

/// One more `#` at the end of the base changes nothing.
pub proof fn law_trailing_hash_is_ignored(ttl: Seq<char>, base: Seq<char>, label: Option<Seq<char>>)
    ensures
        trim_hashes(base.push('#')) == trim_hashes(base),
        rewrite(ttl, base.push('#'), label) == rewrite(ttl, base, label),
{
    assert(base.push('#').drop_last() =~= base);
}

/// The characters of `base` without the `#` characters at its end.
pub fn trimmed_base(base: &str) -> (out: Vec<char>)
    ensures
        out@ == trim_hashes(base@),
{
    let all = chars_of(base);
    let mut end: usize = all.len();
    proof {
        assert(all@.subrange(0, end as int) =~= all@);
    }
    while end > 0 && all[end - 1] == '#'
        invariant
            end <= all.len(),
            trim_hashes(all@.subrange(0, end as int)) == trim_hashes(all@),
        decreases end,
    {
        proof {
            assert(all@.subrange(0, end as int).drop_last() =~= all@.subrange(0, end - 1));
        }
        end -= 1;
    }
    let mut out: Vec<char> = Vec::new();
    let mut i: usize = 0;
    while i < end
        invariant
            i <= end <= all.len(),
            out@ == all@.subrange(0, i as int),
        decreases end - i,
    {
        out.push(all[i]);
        i += 1;
        proof {
            assert(all@.subrange(0, i as int) =~= all@.subrange(0, i - 1).push(all@[i - 1]));
        }
    }
    out
}

/// Whether `base`, once trimmed, stays apart from the default namespace. Where
/// it does, no text rewritten onto it holds the default namespace; where it
/// does not, some text rewritten onto it does. Both hold with any label and
/// with none.
pub fn is_safe_base(base: &str) -> (r: bool)
    ensures
        r == apart(trim_hashes(base@), default_namespace()),
        r ==> forall|ttl: Seq<char>, label: Option<Seq<char>>|
            !contains(#[trigger] rewrite(ttl, base@, label), default_namespace()),
        !r ==> forall|label: Option<Seq<char>>| #[trigger] leaks(base@, label),
{
    let trimmed = trimmed_base(base);
    let ns = chars_of(DEFAULT_NAMESPACE);
    let r = stays_apart(&trimmed, &ns);
    proof {
        if r {
            assert forall|ttl: Seq<char>, label: Option<Seq<char>>|
                !contains(#[trigger] rewrite(ttl, base@, label), default_namespace()) by {
                law_no_default_namespace_left(ttl, base@, label);
            }
        } else {
            assert forall|label: Option<Seq<char>>| #[trigger] leaks(base@, label) by {
                law_unsafe_base_leaks(base@, label);
            }
        }
    }
    r
}

/// Rewrites serialized triple text `ttl` onto `new_base_uri`.
///
/// The base loses the `#` characters at its end. With a label, the root form
/// and the vocabulary form of the default namespace take the base and the
/// label, every other occurrence of the namespace takes the base alone, and a
/// `/` directly after a `#` is dropped. Without a label, every occurrence of
/// the namespace takes the base and nothing else changes.
pub fn apply_replacements(ttl: String, new_base_uri: &str, xml_namespace: Option<&str>) -> (out:
    String)
    ensures
        out@ == rewrite(ttl@, new_base_uri@, label_chars(xml_namespace)),
        apart(trim_hashes(new_base_uri@), default_namespace()) ==> !contains(
            out@,
            default_namespace(),
        ),
{
    proof {
        if apart(trim_hashes(new_base_uri@), default_namespace()) {
            law_no_default_namespace_left(ttl@, new_base_uri@, label_chars(xml_namespace));
        }
    }
    let base = trimmed_base(new_base_uri);
    let ns = chars_of(DEFAULT_NAMESPACE);
    let src = chars_of(ttl.as_str());
    match xml_namespace {
        Some(label) => {
            let mut root_pat = chars_of(DEFAULT_NAMESPACE);
            push_str_chars(&mut root_pat, "#/");
            let mut root_rep: Vec<char> = Vec::new();
            push_chars(&mut root_rep, &base);
            push_str_chars(&mut root_rep, "#");
            push_str_chars(&mut root_rep, label);
            push_str_chars(&mut root_rep, ".");
            proof {
                assert(root_rep@ =~= root_target(base@, label@));
            }
            let rooted = replace_chars(&src, &root_pat, &root_rep);

            let mut model_pat = chars_of(DEFAULT_NAMESPACE);
            push_str_chars(&mut model_pat, "/xml2rdf/model#");
            let mut model_rep: Vec<char> = Vec::new();
            push_chars(&mut model_rep, &base);
            push_str_chars(&mut model_rep, "/xml2rdf/model#");
            push_str_chars(&mut model_rep, label);
            push_str_chars(&mut model_rep, ".");
            proof {
                assert(model_rep@ =~= model_target(base@, label@));
            }
            let modelled = replace_chars(&rooted, &model_pat, &model_rep);

            let rebased = replace_chars(&modelled, &ns, &base);
            let sep = chars_of("#/");
            let hash = chars_of("#");
            let cleaned = replace_chars(&rebased, &sep, &hash);
            string_of(&cleaned)
        },
        None => {
            let rebased = replace_chars(&src, &ns, &base);
            string_of(&rebased)
        },
    }
}

} // verus!
