use vstd::prelude::*;
use vstd::string::StrSliceExecFns;
use vstd::string::StringExecFns;

verus! {

/// A blank character that is stripped from both ends of an ignore-list line:
/// a space, a tab, or the carriage return a Windows line ending leaves.
pub open spec fn is_blank_char(c: char) -> bool {
    c == ' ' || c == '\t' || c == '\r'
}

/// The line with its leading blank characters removed.
pub open spec fn trim_front(s: Seq<char>) -> Seq<char>
    decreases s.len(),
{
    if s.len() > 0 && is_blank_char(s[0]) {
        trim_front(s.skip(1))
    } else {
        s
    }
}

/// The line with its trailing blank characters removed.
pub open spec fn trim_back(s: Seq<char>) -> Seq<char>
    decreases s.len(),
{
    if s.len() > 0 && is_blank_char(s.last()) {
        trim_back(s.drop_last())
    } else {
        s
    }
}

/// The line with blank characters removed from both ends.
pub open spec fn trimmed(s: Seq<char>) -> Seq<char> {
    trim_back(trim_front(s))
}

/// The text split at every `\n`; the separators are dropped. Empty text is a
/// single empty line, and a trailing `\n` opens one more empty line.
pub open spec fn split_lines(s: Seq<char>) -> Seq<Seq<char>>
    decreases s.len(),
{
    if s.len() == 0 {
        seq![Seq::<char>::empty()]
    } else if s[0] == '\n' {
        seq![Seq::<char>::empty()] + split_lines(s.skip(1))
    } else {
        let rest = split_lines(s.skip(1));
        seq![seq![s[0]] + rest[0]] + rest.skip(1)
    }
}

/// The tokens one line contributes: its trimmed text, unless that is empty.
pub open spec fn line_token(l: Seq<char>) -> Seq<Seq<char>> {
    if trimmed(l).len() == 0 {
        Seq::<Seq<char>>::empty()
    } else {
        seq![trimmed(l)]
    }
}

/// The tokens of a sequence of lines, in line order.
pub open spec fn tokens_of_lines(ls: Seq<Seq<char>>) -> Seq<Seq<char>>
    decreases ls.len(),
{
    if ls.len() == 0 {
        Seq::<Seq<char>>::empty()
    } else {
        line_token(ls[0]) + tokens_of_lines(ls.skip(1))
    }
}

/// The shader stems an ignore file's text names: one token per line, blank
/// lines contributing nothing.
pub open spec fn ignore_tokens(s: Seq<char>) -> Seq<Seq<char>> {
    tokens_of_lines(split_lines(s))
}

proof fn lemma_split_lines_at(s: Seq<char>, n: int)
    requires
        0 <= n <= s.len(),
        forall|j: int| 0 <= j < n ==> s[j] != '\n',
        n == s.len() || s[n] == '\n',
    ensures
        n == s.len() ==> split_lines(s) == seq![s],
        n < s.len() ==> split_lines(s) == seq![s.take(n)] + split_lines(s.skip(n + 1)),
    decreases n,
{
    if n == 0 {
        if s.len() == 0 {
            assert(s =~= Seq::<char>::empty());
            assert(split_lines(s) =~= seq![s]);
        } else {
            assert(s[0] == '\n');
            assert(s.take(0) =~= Seq::<char>::empty());
        }
    } else {
        assert(s[0] != '\n');
        let t = s.skip(1);
        assert forall|j: int| 0 <= j < n - 1 implies t[j] != '\n' by {
            assert(t[j] == s[j + 1]);
        }
        lemma_split_lines_at(t, n - 1);
        let rest = split_lines(t);
        if n == s.len() {
            assert(rest == seq![t]);
            assert(seq![s[0]] + t =~= s);
            assert(seq![seq![s[0]] + rest[0]] + rest.skip(1) =~= seq![s]);
        } else {
            assert(rest == seq![t.take(n - 1)] + split_lines(t.skip(n)));
            assert(rest[0] == t.take(n - 1));
            assert(seq![s[0]] + t.take(n - 1) =~= s.take(n));
            assert(rest.skip(1) =~= split_lines(t.skip(n)));
            assert(t.skip(n) =~= s.skip(n + 1));
            assert(seq![seq![s[0]] + rest[0]] + rest.skip(1) =~= seq![s.take(n)] + split_lines(
                s.skip(n + 1),
            ));
        }
    }
}

proof fn lemma_trim_front_at(s: Seq<char>, k: int)
    requires
        0 <= k <= s.len(),
        forall|j: int| 0 <= j < k ==> is_blank_char(s[j]),
        k == s.len() || !is_blank_char(s[k]),
    ensures
        trim_front(s) == s.skip(k),
    decreases k,
{
    if k == 0 {
        assert(s.skip(0) =~= s);
    } else {
        assert(is_blank_char(s[0]));
        let t = s.skip(1);
        assert forall|j: int| 0 <= j < k - 1 implies is_blank_char(t[j]) by {
            assert(t[j] == s[j + 1]);
        }
        lemma_trim_front_at(t, k - 1);
        assert(t.skip(k - 1) =~= s.skip(k));
    }
}

proof fn lemma_trim_back_at(s: Seq<char>, k: int)
    requires
        0 <= k <= s.len(),
        forall|j: int| k <= j < s.len() ==> is_blank_char(s[j]),
        k == 0 || !is_blank_char(s[k - 1]),
    ensures
        trim_back(s) == s.take(k),
    decreases s.len(),
{
    if k == s.len() {
        if s.len() > 0 {
            assert(!is_blank_char(s.last()));
        }
        assert(s.take(k) =~= s);
    } else {
        assert(is_blank_char(s.last()));
        let t = s.drop_last();
        lemma_trim_back_at(t, k);
        assert(t.take(k) =~= s.take(k));
    }
}

fn find_line_end(s: &str, from: usize) -> (e: usize)
    requires
        from <= s@.len(),
    ensures
        from <= e <= s@.len(),
        forall|j: int| from <= j < e ==> s@[j] != '\n',
        e == s@.len() || s@[e as int] == '\n',
{
    let n: usize = s.unicode_len();
    let mut e: usize = from;
    while e < n
        invariant
            from <= e <= n,
            n == s@.len(),
            forall|j: int| from <= j < e ==> s@[j] != '\n',
        decreases n - e,
    {
        if s.get_char(e) == '\n' {
            return e;
        }
        e = e + 1;
    }
    e
}

fn is_blank(c: char) -> (r: bool)
    ensures
        r == is_blank_char(c),
{
    c == ' ' || c == '\t' || c == '\r'
}

fn trim_bounds(s: &str, from: usize, to: usize) -> (r: (usize, usize))
    requires
        from <= to <= s@.len(),
    ensures
        from <= r.0 <= r.1 <= to,
        trimmed(s@.subrange(from as int, to as int)) == s@.subrange(r.0 as int, r.1 as int),
{
    let mut lo: usize = from;
    while lo < to && is_blank(s.get_char(lo))
        invariant
            from <= lo <= to <= s@.len(),
            forall|j: int| from <= j < lo ==> is_blank_char(s@[j]),
        decreases to - lo,
    {
        lo = lo + 1;
    }
    let mut hi: usize = to;
    while hi > lo && is_blank(s.get_char(hi - 1))
        invariant
            lo <= hi <= to <= s@.len(),
            forall|j: int| hi <= j < to ==> is_blank_char(s@[j]),
        decreases hi,
    {
        hi = hi - 1;
    }
    proof {
        let line = s@.subrange(from as int, to as int);
        assert forall|j: int| 0 <= j < lo - from implies is_blank_char(line[j]) by {
            assert(line[j] == s@[from + j]);
        }
        assert(lo - from == line.len() || !is_blank_char(line[lo - from]));
        lemma_trim_front_at(line, lo - from);
        let mid = line.skip(lo - from);
        assert forall|j: int| hi - lo <= j < mid.len() implies is_blank_char(mid[j]) by {
            assert(mid[j] == s@[lo + j]);
        }
        if hi > lo {
            assert(!is_blank_char(s@[hi - 1]));
            assert(mid[hi - lo - 1] == s@[hi - 1]);
        }
        lemma_trim_back_at(mid, hi - lo as int);
        assert(mid.take(hi - lo as int) =~= s@.subrange(lo as int, hi as int));
    }
    (lo, hi)
}

/// Reads an ignore file's text into its list of shader stems: one per line,
/// blank characters at either end of a line dropped, blank lines skipped.
pub fn parse_ignore_list(contents: &str) -> (r: Vec<String>)
    ensures
        r@.map_values(|t: String| t@) == ignore_tokens(contents@),
{
    let n: usize = contents.unicode_len();
    let mut toks: Vec<String> = Vec::new();
    let mut i: usize = 0;
    proof {
        assert(contents@.skip(0) =~= contents@);
        assert(toks@.map_values(|t: String| t@) =~= Seq::<Seq<char>>::empty());
    }
    while i <= n
        invariant
            i <= n + 1,
            n == contents@.len(),
            ignore_tokens(contents@) == toks@.map_values(|t: String| t@) + (if i <= n {
                ignore_tokens(contents@.skip(i as int))
            } else {
                Seq::<Seq<char>>::empty()
            }),
        decreases n + 1 - i,
    {
        let ghost prev_toks = toks@;
        let ghost rest = contents@.skip(i as int);
        let e = find_line_end(contents, i);
        let (lo, hi) = trim_bounds(contents, i, e);
        proof {
            assert forall|j: int| 0 <= j < e - i implies rest[j] != '\n' by {
                assert(rest[j] == contents@[i + j]);
            }
            if e < n {
                assert(rest[e - i] == contents@[e as int]);
            }
            lemma_split_lines_at(rest, e - i);
            assert(rest.take(e - i) =~= contents@.subrange(i as int, e as int));
            let line = rest.take(e - i);
            assert(tokens_of_lines(Seq::<Seq<char>>::empty()) == Seq::<Seq<char>>::empty());
            if e == n {
                assert(split_lines(rest) == seq![line]);
                assert(seq![line].skip(1) =~= Seq::<Seq<char>>::empty());
                assert(tokens_of_lines(seq![line]) == line_token(line) + tokens_of_lines(
                    Seq::<Seq<char>>::empty(),
                ));
                assert(line_token(line) + Seq::<Seq<char>>::empty() =~= line_token(line));
                assert(tokens_of_lines(split_lines(rest)) == line_token(line));
            } else {
                let tail = split_lines(rest.skip(e - i + 1));
                assert(split_lines(rest) == seq![line] + tail);
                assert((seq![line] + tail)[0] == line);
                assert((seq![line] + tail).skip(1) =~= tail);
                assert(tokens_of_lines(split_lines(rest)) == line_token(line) + tokens_of_lines(
                    tail,
                ));
                assert(rest.skip(e - i + 1) =~= contents@.skip(e + 1));
            }
            assert(trimmed(line) == contents@.subrange(lo as int, hi as int));
        }
        if hi > lo {
            let tok = contents.substring_char(lo, hi);
            toks.push(String::from_str(tok));
            proof {
                assert(toks@.map_values(|t: String| t@) =~= prev_toks.map_values(|t: String| t@)
                    + seq![contents@.subrange(lo as int, hi as int)]);
            }
        } else {
            proof {
                assert(contents@.subrange(lo as int, hi as int) =~= Seq::<char>::empty());
            }
        }
        proof {
            let ghost added = line_token(contents@.subrange(i as int, e as int));
            let ghost remaining = (if e < n {
                ignore_tokens(contents@.skip(e + 1))
            } else {
                Seq::<Seq<char>>::empty()
            });
            assert(ignore_tokens(contents@) == toks@.map_values(|t: String| t@) + remaining) by {
                assert(prev_toks.map_values(|t: String| t@) + (added + remaining)
                    =~= toks@.map_values(|t: String| t@) + remaining);
            }
        }
        if e == n {
            proof {
                assert(toks@.map_values(|t: String| t@) + Seq::<Seq<char>>::empty()
                    =~= toks@.map_values(|t: String| t@));
            }
            return toks;
        }
        i = e + 1;
    }
    proof {
        assert(toks@.map_values(|t: String| t@) + Seq::<Seq<char>>::empty() =~= toks@.map_values(
            |t: String| t@,
        ));
    }
    toks
}

fn str_eq(a: &str, b: &str) -> (r: bool)
    ensures
        r == (a@ == b@),
{
    let n: usize = a.unicode_len();
    let m: usize = b.unicode_len();
    if n != m {
        return false;
    }
    let mut i: usize = 0;
    while i < n
        invariant
            i <= n,
            n == a@.len(),
            n == b@.len(),
            forall|j: int| 0 <= j < i ==> a@[j] == b@[j],
        decreases n - i,
    {
        if a.get_char(i) != b.get_char(i) {
            return false;
        }
        i = i + 1;
    }
    proof {
        assert(a@ =~= b@);
    }
    true
}

/// Ignore-filter law: a shader is excluded exactly when its stem is one of
/// the ignore list's tokens; its extension and its body never matter.
pub fn is_ignored(stem: &str, ignore_list: &Vec<String>) -> (r: bool)
    ensures
        r == ignore_list@.map_values(|t: String| t@).contains(stem@),
{
    let n: usize = ignore_list.len();
    let mut i: usize = 0;
    while i < n
        invariant
            i <= n,
            n == ignore_list@.len(),
            forall|j: int| 0 <= j < i ==> ignore_list@[j]@ != stem@,
        decreases n - i,
    {
        if str_eq(stem, ignore_list[i].as_str()) {
            proof {
                assert(ignore_list@.map_values(|t: String| t@)[i as int] == stem@);
            }
            return true;
        }
        i = i + 1;
    }
    proof {
        let mapped = ignore_list@.map_values(|t: String| t@);
        assert forall|j: int| 0 <= j < mapped.len() implies #[trigger] mapped[j] != stem@ by {
            assert(mapped[j] == ignore_list@[j]@);
        }
    }
    false
}

/// The list of stems an optional ignore file yields: a missing file is an
/// empty list.
pub fn load_ignore_list(contents: Option<&str>) -> (r: Vec<String>)
    ensures
        r@.map_values(|t: String| t@) == (match contents {
            Some(c) => ignore_tokens(c@),
            None => Seq::<Seq<char>>::empty(),
        }),
{
    match contents {
        Some(c) => parse_ignore_list(c),
        None => {
            let r: Vec<String> = Vec::new();
            proof {
                assert(r@.map_values(|t: String| t@) =~= Seq::<Seq<char>>::empty());
            }
            r
        },
    }
}

/// Missing-file law: an absent ignore file and an ignore file whose text
/// holds no token name the same stems - none - so both select every shader.
pub proof fn lemma_missing_ignore_like_empty(stem: Seq<char>)
    ensures
        ignore_tokens(Seq::<char>::empty()) == Seq::<Seq<char>>::empty(),
        !Seq::<Seq<char>>::empty().contains(stem),
{
    let none = Seq::<char>::empty();
    assert(split_lines(none) == seq![none]);
    assert(trim_front(none) == none);
    assert(trim_back(none) == none);
    assert(trimmed(none).len() == 0);
    assert(seq![none].skip(1) =~= Seq::<Seq<char>>::empty());
    assert(tokens_of_lines(Seq::<Seq<char>>::empty()) == Seq::<Seq<char>>::empty());
    assert(tokens_of_lines(seq![none]) == line_token(none) + tokens_of_lines(
        Seq::<Seq<char>>::empty(),
    ));
    assert(line_token(none) + Seq::<Seq<char>>::empty() =~= Seq::<Seq<char>>::empty());
}

} // verus!
