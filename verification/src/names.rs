use vstd::prelude::*;
use vstd::string::StrSliceExecFns;
use vstd::string::StringExecFns;

verus! {

/// The last `/`-separated component of a path: the file name with its
/// extension. A path without `/` is its own base name.
pub open spec fn base_name(path: Seq<char>) -> Seq<char>
    decreases path.len(),
{
    if path.len() == 0 {
        path
    } else if path.last() == '/' {
        Seq::<char>::empty()
    } else {
        base_name(path.drop_last()).push(path.last())
    }
}

/// Index of the last `.` in a name, or -1 if there is none.
pub open spec fn last_dot(name: Seq<char>) -> int
    decreases name.len(),
{
    if name.len() == 0 {
        -1
    } else if name.last() == '.' {
        name.len() - 1
    } else {
        last_dot(name.drop_last())
    }
}

/// The stem of a file name: the part before the last `.`. A name without a
/// `.`, or whose only `.` opens it, is its own stem.
pub open spec fn stem_of(name: Seq<char>) -> Seq<char> {
    let d = last_dot(name);
    if d <= 0 {
        name
    } else {
        name.take(d)
    }
}

proof fn lemma_base_name_at(s: Seq<char>, p: int)
    requires
        -1 <= p < s.len() || (p == -1 && s.len() == 0),
        p == -1 || s[p] == '/',
        forall|j: int| p < j < s.len() ==> s[j] != '/',
    ensures
        base_name(s) == s.skip(p + 1),
    decreases s.len(),
{
    if s.len() == 0 {
        assert(s.skip(0) =~= s);
    } else if s.last() == '/' {
        assert(p == s.len() - 1);
        assert(s.skip(s.len() as int) =~= Seq::<char>::empty());
    } else {
        assert(p < s.len() - 1);
        lemma_base_name_at(s.drop_last(), p);
        assert(s.drop_last().skip(p + 1).push(s.last()) =~= s.skip(p + 1));
    }
}

proof fn lemma_last_dot_at(s: Seq<char>, p: int)
    requires
        -1 <= p < s.len() || (p == -1 && s.len() == 0),
        p == -1 || s[p] == '.',
        forall|j: int| p < j < s.len() ==> s[j] != '.',
    ensures
        last_dot(s) == p,
    decreases s.len(),
{
    if s.len() == 0 {
    } else if s.last() == '.' {
        assert(p == s.len() - 1);
    } else {
        assert(p < s.len() - 1);
        lemma_last_dot_at(s.drop_last(), p);
    }
}

/// The file name, extension kept, of the path's last component.
pub fn get_file_name_ext(path: &str) -> (r: String)
    ensures
        r@ == base_name(path@),
{
    let n: usize = path.unicode_len();
    let mut cut: usize = 0;
    let mut i: usize = 0;
    while i < n
        invariant
            cut <= i <= n,
            n == path@.len(),
            cut == 0 || path@[cut - 1] == '/',
            forall|j: int| cut <= j < i ==> path@[j] != '/',
        decreases n - i,
    {
        if path.get_char(i) == '/' {
            cut = i + 1;
        }
        i = i + 1;
    }
    proof {
        lemma_base_name_at(path@, cut - 1);
        assert(path@.subrange(cut as int, n as int) =~= path@.skip(cut as int));
    }
    let r = path.substring_char(cut, n);
    String::from_str(r)
}

/// The stem, extension stripped, of the path's last component.
pub fn get_file_name(path: &str) -> (r: String)
    ensures
        r@ == stem_of(base_name(path@)),
{
    let base = get_file_name_ext(path);
    let b = base.as_str();
    let n: usize = b.unicode_len();
    let mut dot: usize = 0;
    let mut has_dot: bool = false;
    let mut i: usize = 0;
    while i < n
        invariant
            n == b@.len(),
            i <= n,
            has_dot ==> dot < i && b@[dot as int] == '.',
            forall|j: int| (if has_dot { dot < j < i } else { 0 <= j < i }) ==> b@[j] != '.',
        decreases n - i,
    {
        if b.get_char(i) == '.' {
            dot = i;
            has_dot = true;
        }
        i = i + 1;
    }
    proof {
        if has_dot {
            lemma_last_dot_at(b@, dot as int);
        } else {
            lemma_last_dot_at(b@, -1);
        }
    }
    if !has_dot || dot == 0 {
        proof {
            assert(stem_of(b@) == b@);
        }
        base
    } else {
        proof {
            assert(b@.subrange(0, dot as int) =~= b@.take(dot as int));
        }
        let r = b.substring_char(0, dot);
        String::from_str(r)
    }
}

} // verus!
