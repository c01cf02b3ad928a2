//! Character-level text logic: locating delimiters, splitting a line into
//! `host:port` halves, splitting a buffer into lines, and assembling
//! delimiter-separated record lines.

use vstd::prelude::*;

verus! {

/// How many times `c` occurs in `s`.
pub open spec fn count_char(s: Seq<char>, c: char) -> nat
    decreases s.len(),
{
    if s.len() == 0 {
        0
    } else {
        count_char(s.drop_last(), c) + (if s.last() == c {
            1nat
        } else {
            0nat
        })
    }
}

/// The index of the first occurrence of `c` in `s`, or `s.len()` when
/// `c` does not occur.
pub open spec fn first_index(s: Seq<char>, c: char) -> int
    decreases s.len(),
{
    if s.len() == 0 {
        0
    } else if s[0] == c {
        0
    } else {
        1 + first_index(s.subrange(1, s.len() as int), c)
    }
}

pub proof fn lemma_first_index(s: Seq<char>, c: char)
    ensures
        0 <= first_index(s, c) <= s.len(),
        first_index(s, c) < s.len() ==> s[first_index(s, c)] == c,
        forall|j: int| 0 <= j < first_index(s, c) ==> s[j] != c,
        first_index(s, c) == s.len() ==> forall|j: int| 0 <= j < s.len() ==> s[j] != c,
    decreases s.len(),
{
    if s.len() == 0 {
    } else if s[0] == c {
    } else {
        let t = s.subrange(1, s.len() as int);
        lemma_first_index(t, c);
        assert forall|j: int| 0 <= j < first_index(s, c) implies s[j] != c by {
            if j > 0 {
                assert(s[j] == t[j - 1]);
            }
        }
        if first_index(s, c) == s.len() {
            assert forall|j: int| 0 <= j < s.len() implies s[j] != c by {
                if j > 0 {
                    assert(s[j] == t[j - 1]);
                }
            }
        }
    }
}

/// If no character of `s` is `c`, then `c` is counted zero times.
pub proof fn lemma_count_char_absent(s: Seq<char>, c: char)
    requires
        forall|j: int| 0 <= j < s.len() ==> s[j] != c,
    ensures
        count_char(s, c) == 0,
    decreases s.len(),
{
    if s.len() > 0 {
        lemma_count_char_absent(s.drop_last(), c);
    }
}

/// Counting distributes over concatenation.
pub proof fn lemma_count_char_concat(a: Seq<char>, b: Seq<char>, c: char)
    ensures
        count_char(a + b, c) == count_char(a, c) + count_char(b, c),
    decreases b.len(),
{
    if b.len() == 0 {
        assert(a + b =~= a);
    } else {
        lemma_count_char_concat(a, b.drop_last(), c);
        assert((a + b).drop_last() =~= a + b.drop_last());
        assert((a + b).last() == b.last());
    }
}

/// If some character of `s` is `c`, then `c` is counted at least once.
pub proof fn lemma_count_char_present(s: Seq<char>, c: char, i: int)
    requires
        0 <= i < s.len(),
        s[i] == c,
    ensures
        count_char(s, c) >= 1,
    decreases s.len(),
{
    if i == s.len() - 1 {
    } else {
        lemma_count_char_present(s.drop_last(), c, i);
    }
}

/// Finds the first occurrence of `c` in `s`, if any.
pub fn find_char(s: &str, c: char) -> (r: Option<usize>)
    ensures
        match r {
            Some(i) => i == first_index(s@, c) && i < s@.len(),
            None => first_index(s@, c) == s@.len(),
        },
{
    proof {
        lemma_first_index(s@, c);
    }
    let n = s.unicode_len();
    let mut i: usize = 0;
    while i < n
        invariant
            i <= n,
            n == s@.len(),
            forall|j: int| 0 <= j < i ==> s@[j] != c,
        decreases n - i,
    {
        if s.get_char(i) == c {
            proof {
                lemma_first_index_unique(s@, c, i as int);
            }
            return Some(i);
        }
        i += 1;
    }
    None
}

/// `line` is `host`, one `':'`, then `port`, with the delimiter occurring
/// nowhere inside the two halves.
pub open spec fn splits_at_colon(line: Seq<char>, host: Seq<char>, port: Seq<char>) -> bool {
    &&& line == host + seq![':'] + port
    &&& !host.contains(':')
    &&& !port.contains(':')
}

/// A line splits at a colon exactly when it holds one colon.
pub proof fn lemma_one_colon_splits(line: Seq<char>, host: Seq<char>, port: Seq<char>)
    requires
        splits_at_colon(line, host, port),
    ensures
        count_char(line, ':') == 1,
{
    assert forall|j: int| 0 <= j < host.len() implies host[j] != ':' by {
        if host[j] == ':' {
            assert(host.contains(':'));
        }
    }
    assert forall|j: int| 0 <= j < port.len() implies port[j] != ':' by {
        if port[j] == ':' {
            assert(port.contains(':'));
        }
    }
    lemma_count_char_absent(host, ':');
    lemma_count_char_absent(port, ':');
    lemma_count_char_concat(host, seq![':'], ':');
    lemma_count_char_concat(host + seq![':'], port, ':');
    let colon: Seq<char> = seq![':'];
    assert(colon.len() == 1 && colon.last() == ':');
    assert(colon.drop_last() =~= Seq::<char>::empty());
    assert(count_char(colon.drop_last(), ':') == 0);
    assert(count_char(colon, ':') == 1);
}

/// The halves a line splits into at a colon are unique.
pub proof fn lemma_split_unique(
    line: Seq<char>,
    h1: Seq<char>,
    p1: Seq<char>,
    h2: Seq<char>,
    p2: Seq<char>,
)
    requires
        splits_at_colon(line, h1, p1),
        splits_at_colon(line, h2, p2),
    ensures
        h1 == h2,
        p1 == p2,
{
    if h1.len() < h2.len() {
        assert(line[h1.len() as int] == ':');
        assert(h2[h1.len() as int] == ':');
        assert(h2.contains(':'));
    } else if h2.len() < h1.len() {
        assert(line[h2.len() as int] == ':');
        assert(h1[h2.len() as int] == ':');
        assert(h1.contains(':'));
    } else {
        assert(line.len() == h1.len() + 1 + p1.len());
        assert(line.len() == h2.len() + 1 + p2.len());
        assert(p1.len() == p2.len());
        assert(h1 =~= h2) by {
            assert(forall|j: int| 0 <= j < h1.len() ==> h1[j] == line[j] && h2[j] == line[j]);
        }
        assert forall|j: int| 0 <= j < p1.len() implies p1[j] == p2[j] by {
            assert(p1[j] == (h1 + seq![':'] + p1)[h1.len() + 1 + j]);
            assert(p2[j] == (h2 + seq![':'] + p2)[h2.len() + 1 + j]);
        }
        assert(p1 =~= p2);
    }
}

/// Splits a line of the form `host:port` into its two halves. Returns
/// `Some` exactly when the line holds exactly one `':'`; blank lines and
/// malformed rows fall out as `None`.
pub fn parse_host_port(line: &str) -> (r: Option<(String, String)>)
    ensures
        r is Some <==> count_char(line@, ':') == 1,
        match r {
            Some(hp) => splits_at_colon(line@, hp.0@, hp.1@),
            None => true,
        },
{
    proof {
        lemma_first_index(line@, ':');
    }
    let n = line.unicode_len();
    match find_char(line, ':') {
        None => {
            proof {
                lemma_count_char_absent(line@, ':');
            }
            None
        },
        Some(i) => {
            let host = String::from_str(line.substring_char(0, i));
            let rest = line.substring_char(i + 1, n);
            match find_char(rest, ':') {
                None => {
                    let port = String::from_str(rest);
                    proof {
                        lemma_first_index(rest@, ':');
                        assert(line@ =~= host@ + seq![':'] + port@);
                        assert forall|j: int| 0 <= j < host@.len() implies host@[j]
                            != ':' by {
                            assert(host@[j] == line@[j]);
                        }
                        if host@.contains(':') {
                            let j = choose|j: int| 0 <= j < host@.len() && host@[j] == ':';
                            assert(host@[j] != ':');
                        }
                        if port@.contains(':') {
                            let j = choose|j: int| 0 <= j < port@.len() && port@[j] == ':';
                            assert(port@[j] != ':');
                        }
                        lemma_one_colon_splits(line@, host@, port@);
                    }
                    Some((host, port))
                },
                Some(k) => {
                    proof {
                        lemma_first_index(rest@, ':');
                        let pre = line@.subrange(0, i + 1);
                        let post = line@.subrange(i + 1, n as int);
                        assert(line@ =~= pre + post);
                        assert(rest@ == post);
                        lemma_count_char_present(pre, ':', i as int);
                        lemma_count_char_present(post, ':', k as int);
                        lemma_count_char_concat(pre, post, ':');
                    }
                    None
                },
            }
        },
    }
}

/// The lines of a buffer: maximal `'\n'`-free stretches, where the final
/// newline, if any, terminates the last line rather than opening an empty
/// one.
pub open spec fn lines_of(s: Seq<char>) -> Seq<Seq<char>>
    decreases s.len(),
{
    if s.len() == 0 {
        Seq::empty()
    } else {
        let i = first_index(s, '\n');
        if 0 <= i < s.len() {
            seq![s.subrange(0, i)] + lines_of(s.subrange(i + 1, s.len() as int))
        } else {
            seq![s]
        }
    }
}

/// A newline-free buffer is one line, or none when empty.
pub proof fn lemma_lines_no_newline(s: Seq<char>)
    requires
        !s.contains('\n'),
    ensures
        lines_of(s) == if s.len() == 0 {
            Seq::<Seq<char>>::empty()
        } else {
            seq![s]
        },
{
    if s.len() > 0 {
        lemma_first_index(s, '\n');
        let i = first_index(s, '\n');
        if 0 <= i < s.len() {
            assert(s[i] == '\n');
            assert(s.contains('\n'));
        }
    }
}

/// Prepending one newline-terminated line to a buffer prepends that line
/// to the buffer's lines.
pub proof fn lemma_lines_unfold(a: Seq<char>, b: Seq<char>)
    requires
        !a.contains('\n'),
    ensures
        lines_of(a + seq!['\n'] + b) == seq![a] + lines_of(b),
{
    let s = a + seq!['\n'] + b;
    assert(s[a.len() as int] == '\n');
    assert forall|j: int| 0 <= j < a.len() implies s[j] != '\n' by {
        assert(s[j] == a[j]);
        if a[j] == '\n' {
            assert(a.contains('\n'));
        }
    }
    lemma_first_index_unique(s, '\n', a.len() as int);
    assert(s.subrange(0, a.len() as int) =~= a);
    assert(s.subrange(a.len() as int + 1, s.len() as int) =~= b);
    assert(lines_of(s) =~= seq![a] + lines_of(b));
}

/// Splits a buffer into its lines, exactly as [`lines_of`] describes.
pub fn split_lines(text: &str) -> (r: Vec<String>)
    ensures
        r.deep_view() == lines_of(text@),
{
    let n = text.unicode_len();
    let mut r: Vec<String> = Vec::new();
    let mut start: usize = 0;
    let mut i: usize = 0;
    proof {
        assert(text@.subrange(0, n as int) =~= text@);
        assert(r.deep_view() + lines_of(text@) =~= lines_of(text@));
    }
    while i < n
        invariant
            start <= i <= n,
            n == text@.len(),
            forall|j: int| start <= j < i ==> text@[j] != '\n',
            lines_of(text@) == r.deep_view() + lines_of(
                text@.subrange(start as int, n as int),
            ),
        decreases n - i,
    {
        if text.get_char(i) == '\n' {
            let line = String::from_str(text.substring_char(start, i));
            proof {
                let tail = text@.subrange(start as int, n as int);
                let rest = text@.subrange(i + 1, n as int);
                assert(line@ =~= text@.subrange(start as int, i as int));
                assert forall|j: int| 0 <= j < line@.len() implies line@[j] != '\n' by {
                    assert(line@[j] == text@[start + j]);
                }
                if line@.contains('\n') {
                    let j = choose|j: int| 0 <= j < line@.len() && line@[j] == '\n';
                    assert(line@[j] != '\n');
                }
                assert(tail =~= line@ + seq!['\n'] + rest);
                lemma_lines_unfold(line@, rest);
            }
            let ghost old_r = r.deep_view();
            r.push(line);
            proof {
                assert(r.deep_view() =~= old_r + seq![line@]);
                assert(r.deep_view() + lines_of(text@.subrange(i + 1, n as int)) =~= lines_of(
                    text@,
                ));
            }
            start = i + 1;
        }
        i += 1;
    }
    let ghost tail = text@.subrange(start as int, n as int);
    proof {
        assert forall|j: int| 0 <= j < tail.len() implies tail[j] != '\n' by {
            assert(tail[j] == text@[start + j]);
        }
        if tail.contains('\n') {
            let j = choose|j: int| 0 <= j < tail.len() && tail[j] == '\n';
            assert(tail[j] != '\n');
        }
        lemma_lines_no_newline(tail);
    }
    if start < n {
        let line = String::from_str(text.substring_char(start, n));
        let ghost old_r = r.deep_view();
        r.push(line);
        proof {
            assert(line@ =~= tail);
            assert(r.deep_view() =~= old_r + seq![line@]);
            assert(r.deep_view() =~= lines_of(text@));
        }
    } else {
        proof {
            assert(r.deep_view() + lines_of(tail) =~= r.deep_view());
            assert(r.deep_view() =~= lines_of(text@));
        }
    }
    r
}

/// Joins an identifier and a secret into one `identifier:secret` line.
pub fn format_record(identifier: &str, secret: &str) -> (r: String)
    ensures
        r@ == identifier@ + seq![':'] + secret@,
{
    let mut s = String::from_str(identifier);
    s.append(":");
    s.append(secret);
    proof {
        reveal_strlit(":");
        assert(":"@ =~= seq![':']);
        assert(s@ =~= identifier@ + seq![':'] + secret@);
    }
    s
}

/// A position whose prefix is free of `c` and which holds `c` is the
/// first occurrence.
pub proof fn lemma_first_index_unique(s: Seq<char>, c: char, i: int)
    requires
        0 <= i < s.len(),
        s[i] == c,
        forall|j: int| 0 <= j < i ==> s[j] != c,
    ensures
        first_index(s, c) == i,
{
    lemma_first_index(s, c);
    if first_index(s, c) < i {
        assert(s[first_index(s, c)] != c);
    }
}

} // verus!
