//! String utilities: equality, lexicographic order by code point, and the
//! project-relative path rule used for file paths found in the log.

use vstd::prelude::*;

verus! {

/// Lexicographic "less or equal" on character sequences, by code point.
/// For valid UTF-8 this agrees with the byte order of the encoded strings.
pub open spec fn lex_le(a: Seq<char>, b: Seq<char>) -> bool
    decreases a.len(),
{
    if a.len() == 0 {
        true
    } else if b.len() == 0 {
        false
    } else if a[0] == b[0] {
        lex_le(a.drop_first(), b.drop_first())
    } else {
        a[0] < b[0]
    }
}

pub proof fn lemma_lex_le_total(a: Seq<char>, b: Seq<char>)
    ensures
        lex_le(a, b) || lex_le(b, a),
    decreases a.len(),
{
    if a.len() == 0 || b.len() == 0 {
    } else if a[0] == b[0] {
        lemma_lex_le_total(a.drop_first(), b.drop_first());
    }
}

pub proof fn lemma_lex_le_antisymmetric(a: Seq<char>, b: Seq<char>)
    requires
        lex_le(a, b),
        lex_le(b, a),
    ensures
        a == b,
    decreases a.len(),
{
    if a.len() == 0 {
        assert(b.len() == 0);
        assert(a =~= b);
    } else {
        assert(b.len() > 0);
        assert(a[0] == b[0]);
        lemma_lex_le_antisymmetric(a.drop_first(), b.drop_first());
        assert forall|i: int| 0 <= i < a.len() implies a[i] == b[i] by {
            if i > 0 {
                assert(a[i] == a.drop_first()[i - 1]);
                assert(b[i] == b.drop_first()[i - 1]);
            }
        }
        assert(a =~= b);
    }
}

pub proof fn lemma_lex_le_transitive(a: Seq<char>, b: Seq<char>, c: Seq<char>)
    requires
        lex_le(a, b),
        lex_le(b, c),
    ensures
        lex_le(a, c),
    decreases a.len(),
{
    if a.len() == 0 {
    } else {
        assert(b.len() > 0);
        if b.len() > 0 && c.len() > 0 {
            if a[0] == b[0] && b[0] == c[0] {
                lemma_lex_le_transitive(a.drop_first(), b.drop_first(), c.drop_first());
            }
        }
    }
}

/// Equality of two string slices, decided character by character.
pub fn str_eq(a: &str, b: &str) -> (r: bool)
    ensures
        r == (a@ == b@),
{
    let la = a.unicode_len();
    let lb = b.unicode_len();
    if la != lb {
        return false;
    }
    let mut i: usize = 0;
    while i < la
        invariant
            i <= la,
            la == a@.len(),
            lb == b@.len(),
            la == lb,
            forall|j: int| 0 <= j < i ==> a@[j] == b@[j],
        decreases la - i,
    {
        if a.get_char(i) != b.get_char(i) {
            return false;
        }
        i += 1;
    }
    proof {
        assert(a@ =~= b@);
    }
    true
}

/// Lexicographic comparison of two string slices.
pub fn str_le(a: &str, b: &str) -> (r: bool)
    ensures
        r == lex_le(a@, b@),
{
    let la = a.unicode_len();
    let lb = b.unicode_len();
    let mut i: usize = 0;
    proof {
        assert(a@.skip(0) =~= a@);
        assert(b@.skip(0) =~= b@);
    }
    loop
        invariant
            i <= la,
            i <= lb,
            la == a@.len(),
            lb == b@.len(),
            forall|j: int| 0 <= j < i ==> a@[j] == b@[j],
            lex_le(a@, b@) == lex_le(a@.skip(i as int), b@.skip(i as int)),
        ensures
            lex_le(a@, b@) == (if i < la && i < lb {
                a@[i as int] < b@[i as int]
            } else {
                i >= la
            }),
        decreases la - i,
    {
        if i >= la || i >= lb {
            proof {
                if i >= la {
                    assert(a@.skip(i as int) =~= Seq::<char>::empty());
                } else {
                    assert(b@.skip(i as int) =~= Seq::<char>::empty());
                    assert(a@.skip(i as int).len() > 0);
                }
            }
            break;
        }
        let ca = a.get_char(i);
        let cb = b.get_char(i);
        if ca != cb {
            proof {
                lemma_lex_le_skip_step(a@, b@, i as int);
            }
            break;
        }
        proof {
            lemma_lex_le_skip_step(a@, b@, i as int);
        }
        i += 1;
    }
    if i < la && i < lb {
        a.get_char(i) < b.get_char(i)
    } else {
        i >= la
    }
}

/// One unfolding step: with equal prefixes up to `i`, comparing from `i`
/// is the same as comparing from `i + 1` when the characters at `i` agree,
/// and is decided by those characters when they differ.
proof fn lemma_lex_le_skip_step(a: Seq<char>, b: Seq<char>, i: int)
    requires
        0 <= i < a.len(),
        0 <= i < b.len(),
    ensures
        a[i] == b[i] ==> lex_le(a.skip(i), b.skip(i)) == lex_le(a.skip(i + 1), b.skip(i + 1)),
        a[i] != b[i] ==> lex_le(a.skip(i), b.skip(i)) == (a[i] < b[i]),
{
    let sa = a.skip(i);
    let sb = b.skip(i);
    assert(sa.len() > 0);
    assert(sb.len() > 0);
    assert(sa[0] == a[i]);
    assert(sb[0] == b[i]);
    assert(sa.drop_first() =~= a.skip(i + 1));
    assert(sb.drop_first() =~= b.skip(i + 1));
}

/// The given sequence with every trailing `/` removed.
pub open spec fn strip_trailing_slashes(s: Seq<char>) -> Seq<char>
    decreases s.len(),
{
    if s.len() > 0 && s.last() == '/' {
        strip_trailing_slashes(s.drop_last())
    } else {
        s
    }
}

/// The given sequence with every leading `/` removed.
pub open spec fn strip_leading_slashes(s: Seq<char>) -> Seq<char>
    decreases s.len(),
{
    if s.len() > 0 && s[0] == '/' {
        strip_leading_slashes(s.drop_first())
    } else {
        s
    }
}

/// The path of a touched file, rewritten relative to the project root:
/// if the path lies under the root (ignoring trailing separators on the
/// root), the root and any leading separators are removed; any other path
/// passes through unchanged. Lying under the root means the root is a
/// prefix ending at a path-component boundary, so a sibling path that
/// merely shares the root's text is passed through, not mangled.
pub open spec fn rel_path(file: Seq<char>, project: Seq<char>) -> Seq<char> {
    let p = strip_trailing_slashes(project);
    if p.len() <= file.len() && file.subrange(0, p.len() as int) == p && (file.len() == p.len()
        || file[p.len() as int] == '/') {
        strip_leading_slashes(file.skip(p.len() as int))
    } else {
        file
    }
}

proof fn lemma_strip_trailing_prefix(s: Seq<char>, n: int)
    requires
        0 <= n <= s.len(),
        forall|j: int| n <= j < s.len() ==> s[j] == '/',
        n == 0 || s[n - 1] != '/',
    ensures
        strip_trailing_slashes(s) == s.subrange(0, n),
    decreases s.len(),
{
    if s.len() > 0 && s.last() == '/' {
        assert(n < s.len());
        lemma_strip_trailing_prefix(s.drop_last(), n);
        assert(s.drop_last().subrange(0, n) =~= s.subrange(0, n));
    } else {
        assert(n == s.len());
        assert(s.subrange(0, n) =~= s);
    }
}

proof fn lemma_strip_leading_skip(s: Seq<char>, n: int)
    requires
        0 <= n <= s.len(),
        forall|j: int| 0 <= j < n ==> s[j] == '/',
        n == s.len() || s[n] != '/',
    ensures
        strip_leading_slashes(s) == s.skip(n),
    decreases n,
{
    if n == 0 {
        assert(s.skip(0) =~= s);
        if s.len() > 0 && s[0] == '/' {
            assert(false);
        }
    } else {
        assert(s[0] == '/');
        assert(s.len() > 0);
        lemma_strip_leading_skip(s.drop_first(), n - 1);
        assert(s.drop_first().skip(n - 1) =~= s.skip(n));
    }
}

/// Rewrite an absolute file path relative to the project root.
pub fn make_relative_path(file_path: &str, project_path: &str) -> (r: String)
    ensures
        r@ == rel_path(file_path@, project_path@),
{
    let plen = project_path.unicode_len();
    let flen = file_path.unicode_len();

    // Length of the project root with trailing separators removed.
    let mut p_end: usize = plen;
    while p_end > 0 && project_path.get_char(p_end - 1) == '/'
        invariant
            p_end <= plen,
            plen == project_path@.len(),
            forall|j: int| p_end <= j < plen ==> project_path@[j] == '/',
        decreases p_end,
    {
        p_end -= 1;
    }
    proof {
        lemma_strip_trailing_prefix(project_path@, p_end as int);
    }

    // Does the file path start with the trimmed root?
    let mut is_prefix: bool = p_end <= flen;
    if is_prefix {
        let mut i: usize = 0;
        while i < p_end
            invariant_except_break
                is_prefix,
                i <= p_end,
                plen == project_path@.len(),
                flen == file_path@.len(),
                p_end <= plen,
                p_end <= flen,
                forall|j: int| 0 <= j < i ==> file_path@[j] == project_path@[j],
            ensures
                plen == project_path@.len(),
                flen == file_path@.len(),
                p_end <= plen,
                p_end <= flen,
                is_prefix ==> forall|j: int| 0 <= j < p_end ==> file_path@[j] == project_path@[j],
                !is_prefix ==> file_path@.subrange(0, p_end as int) != project_path@.subrange(
                    0,
                    p_end as int,
                ),
            decreases p_end - i,
        {
            if file_path.get_char(i) != project_path.get_char(i) {
                is_prefix = false;
                proof {
                    let fp = file_path@.subrange(0, p_end as int);
                    let pp = project_path@.subrange(0, p_end as int);
                    assert(fp[i as int] != pp[i as int]);
                }
                break;
            }
            i += 1;
        }
    }

    // The match must end at a path-component boundary: a sibling path that
    // merely shares the root's text passes through unchanged.
    let at_boundary: bool = is_prefix && (p_end == flen || file_path.get_char(p_end) == '/');

    let ghost p = strip_trailing_slashes(project_path@);
    if is_prefix && at_boundary {
        proof {
            assert(file_path@.subrange(0, p_end as int) =~= project_path@.subrange(
                0,
                p_end as int,
            ));
            assert(project_path@.subrange(0, p_end as int) == p);
        }
        // Skip leading separators after the root.
        let mut s: usize = p_end;
        while s < flen && file_path.get_char(s) == '/'
            invariant
                p_end <= s <= flen,
                flen == file_path@.len(),
                forall|j: int| p_end <= j < s ==> file_path@[j] == '/',
            decreases flen - s,
        {
            s += 1;
        }
        proof {
            lemma_strip_leading_skip(file_path@.skip(p_end as int), s - p_end);
            assert(file_path@.skip(p_end as int).skip(s - p_end) =~= file_path@.skip(s as int));
            assert(file_path@.skip(s as int) =~= file_path@.subrange(s as int, flen as int));
        }
        file_path.substring_char(s, flen).to_owned()
    } else {
        proof {
            if is_prefix {
                assert(file_path@.subrange(0, p_end as int) =~= project_path@.subrange(
                    0,
                    p_end as int,
                ));
                assert(!(file_path@.len() == p.len() || file_path@[p.len() as int] == '/'));
            } else {
                assert(!(p.len() <= file_path@.len() && file_path@.subrange(0, p.len() as int)
                    == p));
            }
        }
        file_path.to_owned()
    }
}

} // verus!
