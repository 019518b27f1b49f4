use vstd::prelude::*;
use vstd::string::StrSliceExecFns;
use vstd::string::StringExecFns;

use crate::shader_objects::ShaderCode;
use crate::shader_objects::ShaderStructObject;

verus! {

/// The literal text that opens a directive; the fragment token follows it.
pub open spec fn directive_marker() -> Seq<char> {
    "#include "@
}

/// The full directive text that a fragment with the given token answers to.
pub open spec fn directive_of(token: Seq<char>) -> Seq<char> {
    directive_marker() + token
}

/// The pattern occurs in `text` starting at character position `i`.
pub open spec fn is_match_at(text: Seq<char>, pat: Seq<char>, i: int) -> bool {
    &&& 0 <= i
    &&& i + pat.len() <= text.len()
    &&& text.subrange(i, i + pat.len() as int) == pat
}

/// The pattern occurs somewhere in `text`.
pub open spec fn occurs(text: Seq<char>, pat: Seq<char>) -> bool {
    exists|i: int| is_match_at(text, pat, i)
}

/// Every occurrence of `pat` in `text`, scanned left to right without overlap,
/// replaced by `repl`. An empty pattern is never replaced.
pub open spec fn replace_all(text: Seq<char>, pat: Seq<char>, repl: Seq<char>) -> Seq<char>
    decreases text.len(),
{
    if pat.len() == 0 || text.len() < pat.len() {
        text
    } else if is_match_at(text, pat, 0) {
        repl + replace_all(text.skip(pat.len() as int), pat, repl)
    } else {
        text.take(1) + replace_all(text.skip(1), pat, repl)
    }
}

/// One fragment applied to a body: every occurrence of its directive replaced
/// by its text.
pub open spec fn apply_fragment(body: Seq<char>, frag: ShaderStructObject) -> Seq<char> {
    replace_all(body, directive_of(frag.token@), frag.data@)
}

/// One substitution pass: each fragment applied in order, each to the text the
/// previous fragments already produced.
pub open spec fn substitute_all(body: Seq<char>, frags: Seq<ShaderStructObject>) -> Seq<char>
    decreases frags.len(),
{
    if frags.len() == 0 {
        body
    } else {
        substitute_all(apply_fragment(body, frags[0]), frags.skip(1))
    }
}

/// A match of `pat` inside the tail `text.skip(k)` is a match inside `text`,
/// shifted by `k`.
pub proof fn lemma_match_shift(text: Seq<char>, pat: Seq<char>, k: int, j: int)
    requires
        0 <= k <= text.len(),
        0 <= j,
    ensures
        is_match_at(text.skip(k), pat, j) == is_match_at(text, pat, k + j),
{
    if j + pat.len() <= text.len() - k {
        assert(text.skip(k).subrange(j, j + pat.len() as int) =~= text.subrange(
            k + j,
            k + j + pat.len() as int,
        ));
    }
}

/// Where a concatenated pattern matches, its first part matches too.
pub proof fn lemma_match_prefix(text: Seq<char>, p1: Seq<char>, p2: Seq<char>, i: int)
    requires
        is_match_at(text, p1 + p2, i),
    ensures
        is_match_at(text, p1, i),
{
    assert(text.subrange(i, i + p1.len() as int) =~= (p1 + p2).subrange(0, p1.len() as int));
    assert((p1 + p2).subrange(0, p1.len() as int) =~= p1);
}

proof fn lemma_step_no_match(t: Seq<char>, pat: Seq<char>, repl: Seq<char>)
    requires
        pat.len() >= 1,
        t.len() >= 1,
        !is_match_at(t, pat, 0),
    ensures
        replace_all(t, pat, repl) == t.take(1) + replace_all(t.skip(1), pat, repl),
{
    if t.len() < pat.len() {
        assert(t.skip(1).len() < pat.len());
        assert(replace_all(t.skip(1), pat, repl) == t.skip(1));
        assert(t.take(1) + t.skip(1) =~= t);
    }
}

fn matches_at(text: &str, i: usize, pat: &str) -> (r: bool)
    requires
        i <= text@.len(),
    ensures
        r == is_match_at(text@, pat@, i as int),
{
    let n: usize = text.unicode_len();
    let m: usize = pat.unicode_len();
    if m > n - i {
        return false;
    }
    let mut j: usize = 0;
    while j < m
        invariant
            j <= m,
            m == pat@.len(),
            n == text@.len(),
            i + m <= n,
            forall|k: int| 0 <= k < j ==> text@[i + k] == pat@[k],
        decreases m - j,
    {
        let a = text.get_char(i + j);
        let b = pat.get_char(j);
        if a != b {
            proof {
                if text@.subrange(i as int, i as int + m as int) == pat@ {
                    assert(text@.subrange(i as int, i as int + m as int)[j as int] == text@[i
                        + j]);
                    assert(false);
                }
            }
            return false;
        }
        j = j + 1;
    }
    proof {
        assert(text@.subrange(i as int, i as int + m as int) =~= pat@);
    }
    true
}

/// Whether the pattern occurs anywhere in the text, as a literal run of
/// characters.
pub fn contains_pattern(text: &str, pat: &str) -> (r: bool)
    ensures
        r == occurs(text@, pat@),
{
    let n: usize = text.unicode_len();
    let m: usize = pat.unicode_len();
    if m > n {
        return false;
    }
    if m == 0 {
        proof {
            assert(text@.subrange(0, 0) =~= pat@);
            assert(is_match_at(text@, pat@, 0));
        }
        return true;
    }
    let bound: usize = n - m;
    let mut i: usize = 0;
    while i <= bound
        invariant
            m == pat@.len(),
            n == text@.len(),
            1 <= m <= n,
            bound == n - m,
            i <= bound + 1,
            forall|k: int| 0 <= k < i ==> !is_match_at(text@, pat@, k),
        decreases bound + 1 - i,
    {
        if matches_at(text, i, pat) {
            return true;
        }
        i = i + 1;
    }
    proof {
        assert(forall|k: int| is_match_at(text@, pat@, k) ==> 0 <= k < i);
    }
    false
}

/// Builds the directive text that the given fragment token answers to.
pub fn make_directive(token: &str) -> (r: String)
    ensures
        r@ == directive_of(token@),
{
    let mut s = String::from_str("#include ");
    s.append(token);
    s
}

/// Replaces every occurrence of `pat` in `text` with `repl`, scanning left to
/// right; an occurrence inserted by an earlier replacement is not scanned
/// again.
pub fn replace_directive(text: &str, pat: &str, repl: &str) -> (r: String)
    requires
        pat@.len() >= 1,
    ensures
        r@ == replace_all(text@, pat@, repl@),
{
    let n: usize = text.unicode_len();
    let m: usize = pat.unicode_len();
    let mut out = String::new();
    let mut i: usize = 0;
    proof {
        assert(text@.skip(0) =~= text@);
        assert(out@ + replace_all(text@, pat@, repl@) =~= replace_all(text@, pat@, repl@));
    }
    while i < n
        invariant
            i <= n,
            n == text@.len(),
            m == pat@.len(),
            m >= 1,
            replace_all(text@, pat@, repl@) == out@ + replace_all(
                text@.skip(i as int),
                pat@,
                repl@,
            ),
        decreases n - i,
    {
        let ghost tail = text@.skip(i as int);
        if matches_at(text, i, pat) {
            proof {
                lemma_match_shift(text@, pat@, i as int, 0);
                assert(is_match_at(tail, pat@, 0));
                assert(tail.skip(m as int) =~= text@.skip(i as int + m as int));
                assert(replace_all(tail, pat@, repl@) == repl@ + replace_all(
                    text@.skip(i as int + m as int),
                    pat@,
                    repl@,
                ));
                assert(out@ + (repl@ + replace_all(text@.skip(i as int + m as int), pat@, repl@))
                    =~= (out@ + repl@) + replace_all(text@.skip(i as int + m as int), pat@, repl@));
            }
            out.append(repl);
            i = i + m;
        } else {
            proof {
                lemma_match_shift(text@, pat@, i as int, 0);
                assert(!is_match_at(tail, pat@, 0));
                lemma_step_no_match(tail, pat@, repl@);
                assert(tail.skip(1) =~= text@.skip(i as int + 1));
                assert(tail.take(1) =~= text@.subrange(i as int, i as int + 1));
                assert(out@ + (tail.take(1) + replace_all(text@.skip(i as int + 1), pat@, repl@))
                    =~= (out@ + tail.take(1)) + replace_all(
                    text@.skip(i as int + 1),
                    pat@,
                    repl@,
                ));
            }
            let piece = text.substring_char(i, i + 1);
            out.append(piece);
            i = i + 1;
        }
    }
    proof {
        assert(text@.skip(n as int) =~= Seq::<char>::empty());
        assert(replace_all(Seq::<char>::empty(), pat@, repl@) == Seq::<char>::empty());
        assert(out@ + Seq::<char>::empty() =~= out@);
    }
    out
}

/// A pass over a one-fragment collection is that fragment's application.
pub proof fn lemma_single_fragment_pass(body: Seq<char>, frag: ShaderStructObject)
    ensures
        substitute_all(body, seq![frag]) == apply_fragment(body, frag),
{
    assert(seq![frag].skip(1) =~= Seq::<ShaderStructObject>::empty());
    assert(substitute_all(apply_fragment(body, frag), Seq::<ShaderStructObject>::empty())
        == apply_fragment(body, frag));
}

/// One substitution pass over a shader body: for each fragment, in collection
/// order, every occurrence of its directive in the current text is replaced by
/// the fragment's text. The shader's name fields are untouched.
///
/// Matching is a raw substring test with no token boundary: a directive whose
/// token opens a longer token also matches inside the longer directive. Where
/// two fragments share a token, the earlier one answers the directive; the
/// later one finds no occurrence left unless the first's text put one back.
pub fn edit_shader_code(shader_code: &mut ShaderCode, shader_structs: &Vec<ShaderStructObject>)
    ensures
        final(shader_code).data@ == substitute_all(old(shader_code).data@, shader_structs@),
        final(shader_code).token == old(shader_code).token,
        final(shader_code).file_name_ext == old(shader_code).file_name_ext,
{
    let mut modified_data = shader_code.data.clone();
    let n: usize = shader_structs.len();
    let mut idx: usize = 0;
    proof {
        assert(shader_structs@.skip(0) =~= shader_structs@);
    }
    while idx < n
        invariant
            idx <= n,
            n == shader_structs@.len(),
            substitute_all(old(shader_code).data@, shader_structs@) == substitute_all(
                modified_data@,
                shader_structs@.skip(idx as int),
            ),
        decreases n - idx,
    {
        let st = &shader_structs[idx];
        let directive = make_directive(st.token.as_str());
        proof {
            reveal_strlit("#include ");
            assert(directive@.len() >= 1);
            assert(shader_structs@.skip(idx as int)[0] == shader_structs@[idx as int]);
            assert(shader_structs@.skip(idx as int).skip(1) =~= shader_structs@.skip(
                idx as int + 1,
            ));
        }
        if contains_pattern(modified_data.as_str(), directive.as_str()) {
            modified_data = replace_directive(
                modified_data.as_str(),
                directive.as_str(),
                st.data.as_str(),
            );
        } else {
            proof {
                assert(forall|k: int| !is_match_at(modified_data@, directive@, k));
                lemma_replace_all_no_match(modified_data@, directive@, st.data@);
            }
        }
        idx = idx + 1;
    }
    proof {
        assert(shader_structs@.skip(n as int) =~= Seq::<ShaderStructObject>::empty());
    }
    shader_code.data = modified_data;
}

proof fn lemma_first_match(text: Seq<char>, pat: Seq<char>, repl: Seq<char>, p: int)
    requires
        pat.len() >= 1,
        is_match_at(text, pat, p),
        forall|i: int| 0 <= i < p ==> !is_match_at(text, pat, i),
    ensures
        replace_all(text, pat, repl) == text.take(p) + repl + replace_all(
            text.skip(p + pat.len() as int),
            pat,
            repl,
        ),
    decreases p,
{
    if p == 0 {
        assert(replace_all(text, pat, repl) == repl + replace_all(
            text.skip(pat.len() as int),
            pat,
            repl,
        ));
        assert(text.take(0) + repl + replace_all(text.skip(pat.len() as int), pat, repl)
            =~= repl + replace_all(text.skip(pat.len() as int), pat, repl));
    } else {
        assert(!is_match_at(text, pat, 0));
        lemma_step_no_match(text, pat, repl);
        lemma_match_shift(text, pat, 1, p - 1);
        assert(is_match_at(text.skip(1), pat, p - 1));
        assert forall|i: int| 0 <= i < p - 1 implies !is_match_at(text.skip(1), pat, i) by {
            lemma_match_shift(text, pat, 1, i);
        }
        lemma_first_match(text.skip(1), pat, repl, p - 1);
        assert(text.skip(1).skip(p - 1 + pat.len() as int) =~= text.skip(p + pat.len() as int));
        assert(text.take(1) + (text.skip(1).take(p - 1) + repl + replace_all(
            text.skip(p + pat.len() as int),
            pat,
            repl,
        )) =~= text.take(p) + repl + replace_all(text.skip(p + pat.len() as int), pat, repl));
    }
}

/// A text with exactly one occurrence of the pattern: the replacement swaps
/// that occurrence for `repl` and leaves the text before and after it
/// unchanged.
pub proof fn lemma_single_occurrence(body: Seq<char>, pat: Seq<char>, repl: Seq<char>, p: int)
    requires
        pat.len() >= 1,
        is_match_at(body, pat, p),
        forall|i: int| is_match_at(body, pat, i) ==> i == p,
    ensures
        replace_all(body, pat, repl) == body.take(p) + repl + body.skip(p + pat.len() as int),
{
    lemma_first_match(body, pat, repl, p);
    let tail = body.skip(p + pat.len() as int);
    assert forall|j: int| !is_match_at(tail, pat, j) by {
        if 0 <= j && is_match_at(tail, pat, j) {
            lemma_match_shift(body, pat, p + pat.len() as int, j);
        }
    }
    lemma_replace_all_no_match(tail, pat, repl);
}

/// A text with exactly two occurrences of the pattern, the second starting at
/// or after the end of the first: both are replaced independently by the same
/// replacement text.
pub proof fn lemma_two_occurrences(
    body: Seq<char>,
    pat: Seq<char>,
    repl: Seq<char>,
    p1: int,
    p2: int,
)
    requires
        pat.len() >= 1,
        is_match_at(body, pat, p1),
        is_match_at(body, pat, p2),
        p1 + pat.len() <= p2,
        forall|i: int| is_match_at(body, pat, i) ==> i == p1 || i == p2,
    ensures
        replace_all(body, pat, repl) == body.take(p1) + repl + body.subrange(
            p1 + pat.len() as int,
            p2,
        ) + repl + body.skip(p2 + pat.len() as int),
{
    lemma_first_match(body, pat, repl, p1);
    let k = p1 + pat.len() as int;
    let tail = body.skip(k);
    let q = p2 - k;
    lemma_match_shift(body, pat, k, q);
    assert(is_match_at(tail, pat, q));
    assert forall|j: int| is_match_at(tail, pat, j) implies j == q by {
        lemma_match_shift(body, pat, k, j);
    }
    lemma_single_occurrence(tail, pat, repl, q);
    assert(tail.take(q) =~= body.subrange(k, p2));
    assert(tail.skip(q + pat.len() as int) =~= body.skip(p2 + pat.len() as int));
    assert(body.take(p1) + repl + (tail.take(q) + repl + tail.skip(q + pat.len() as int))
        =~= body.take(p1) + repl + body.subrange(k, p2) + repl + body.skip(
        p2 + pat.len() as int,
    ));
}

/// Identity law: a body in which the directive opening text occurs nowhere is
/// returned unchanged by a whole substitution pass, whatever the fragments.
pub proof fn lemma_no_directives_identity(body: Seq<char>, frags: Seq<ShaderStructObject>)
    requires
        !occurs(body, directive_marker()),
    ensures
        substitute_all(body, frags) == body,
    decreases frags.len(),
{
    reveal_strlit("#include ");
    if frags.len() > 0 {
        let pat = directive_of(frags[0].token@);
        assert forall|i: int| !is_match_at(body, pat, i) by {
            if is_match_at(body, pat, i) {
                lemma_match_prefix(body, directive_marker(), frags[0].token@, i);
            }
        }
        lemma_replace_all_no_match(body, pat, frags[0].data@);
        assert(apply_fragment(body, frags[0]) == body);
        lemma_no_directives_identity(body, frags.skip(1));
    }
}

/// Single-occurrence law: a body holding exactly one occurrence of a
/// fragment's directive has that occurrence replaced by the fragment's text,
/// with the surrounding text unchanged.
pub proof fn lemma_single_directive_substituted(body: Seq<char>, frag: ShaderStructObject, p: int)
    requires
        is_match_at(body, directive_of(frag.token@), p),
        forall|i: int| is_match_at(body, directive_of(frag.token@), i) ==> i == p,
    ensures
        apply_fragment(body, frag) == body.take(p) + frag.data@ + body.skip(
            p + directive_of(frag.token@).len() as int,
        ),
{
    reveal_strlit("#include ");
    lemma_single_occurrence(body, directive_of(frag.token@), frag.data@, p);
}

/// Multiple-occurrence law: a body holding exactly two occurrences of a
/// fragment's directive, the second starting at or after the end of the
/// first, has both replaced independently by the same fragment text.
pub proof fn lemma_two_directives_substituted(
    body: Seq<char>,
    frag: ShaderStructObject,
    p1: int,
    p2: int,
)
    requires
        is_match_at(body, directive_of(frag.token@), p1),
        is_match_at(body, directive_of(frag.token@), p2),
        p1 + directive_of(frag.token@).len() <= p2,
        forall|i: int| is_match_at(body, directive_of(frag.token@), i) ==> i == p1 || i == p2,
    ensures
        apply_fragment(body, frag) == body.take(p1) + frag.data@ + body.subrange(
            p1 + directive_of(frag.token@).len() as int,
            p2,
        ) + frag.data@ + body.skip(p2 + directive_of(frag.token@).len() as int),
{
    reveal_strlit("#include ");
    lemma_two_occurrences(body, directive_of(frag.token@), frag.data@, p1, p2);
}

/// Replacing a pattern that occurs nowhere in the text leaves it unchanged.
pub proof fn lemma_replace_all_no_match(text: Seq<char>, pat: Seq<char>, repl: Seq<char>)
    requires
        pat.len() >= 1,
        !occurs(text, pat),
    ensures
        replace_all(text, pat, repl) == text,
    decreases text.len(),
{
    if text.len() < pat.len() {
    } else {
        assert(!is_match_at(text, pat, 0));
        assert forall|j: int| !is_match_at(text.skip(1), pat, j) by {
            if 0 <= j {
                lemma_match_shift(text, pat, 1, j);
            }
        }
        lemma_replace_all_no_match(text.skip(1), pat, repl);
        assert(text.take(1) + text.skip(1) =~= text);
    }
}

} // verus!
