//! Input formats: which of the three the pipeline is reading, detected
//! from a file path's extension or named explicitly, and the content type
//! each one is delivered under.

use vstd::prelude::*;

verus! {

/// The format of one input file, fixed for the whole of its processing.
#[derive(Debug, Clone, Copy, PartialEq, Eq, Structural)]
pub enum Mime {
    /// One whole JSON document, sent as a single batch.
    Json,
    /// One JSON object per line.
    NdJson,
    /// Comma-separated (or custom-delimited) rows under a header.
    Csv,
}

/// The position of the last occurrence of `c` in `s`, if any.
pub open spec fn rfind(s: Seq<char>, c: char) -> Option<int>
    decreases s.len(),
{
    if s.len() == 0 {
        None
    } else if s[s.len() - 1] == c {
        Some(s.len() - 1)
    } else {
        rfind(s.drop_last(), c)
    }
}

/// The extension of the file a path names: what follows the last dot of
/// the part after the last slash, unless that dot starts the name (a
/// dot-file has no extension) or there is no dot at all.
pub open spec fn extension_of(p: Seq<char>) -> Option<Seq<char>> {
    let start: int = match rfind(p, '/') {
        Some(i) => i + 1,
        None => 0,
    };
    let fname = p.skip(start);
    match rfind(fname, '.') {
        None => None,
        Some(j) => if j == 0 {
            None
        } else {
            Some(fname.skip(j + 1))
        },
    }
}

/// The format a path's extension names, if any.
pub open spec fn mime_of_path(p: Seq<char>) -> Option<Mime> {
    match extension_of(p) {
        None => None,
        Some(e) => {
            if e == seq!['j', 's', 'o', 'n'] {
                Some(Mime::Json)
            } else if e == seq!['n', 'd', 'j', 's', 'o', 'n'] || e == seq![
                'j',
                's',
                'o',
                'n',
                'l',
            ] {
                Some(Mime::NdJson)
            } else if e == seq!['c', 's', 'v'] {
                Some(Mime::Csv)
            } else {
                None
            }
        },
    }
}

/// Case-insensitive match of one character against a lower-case target.
pub open spec fn eq_ci(a: char, b: char) -> bool {
    a as u32 == b as u32 || (65 <= a as u32 <= 90 && a as u32 + 32 == b as u32)
}

/// Case-insensitive match of a name against a lower-case target.
pub open spec fn name_matches(s: Seq<char>, t: Seq<char>) -> bool {
    s.len() == t.len() && forall|i: int| 0 <= i < s.len() ==> eq_ci(s[i], #[trigger] t[i])
}

/// The format a (case-insensitive) name designates, if any.
pub open spec fn mime_from_name(s: Seq<char>) -> Option<Mime> {
    if name_matches(s, seq!['j', 's', 'o', 'n']) {
        Some(Mime::Json)
    } else if name_matches(s, seq!['n', 'd', 'j', 's', 'o', 'n']) || name_matches(
        s,
        seq!['j', 's', 'o', 'n', 'l'],
    ) {
        Some(Mime::NdJson)
    } else if name_matches(s, seq!['c', 's', 'v']) {
        Some(Mime::Csv)
    } else {
        None
    }
}

/// The content type a format is delivered under.
pub open spec fn mime_str(m: Mime) -> Seq<char> {
    match m {
        Mime::Json => "application/json"@,
        Mime::NdJson => "application/x-ndjson"@,
        Mime::Csv => "text/csv"@,
    }
}

/// Scanning one more character keeps the last hit, or replaces it.
proof fn lemma_rfind_push(s: Seq<char>, x: char, c: char)
    ensures
        rfind(s.push(x), c) == (if x == c {
            Some(s.len() as int)
        } else {
            rfind(s, c)
        }),
{
    assert(s.push(x).len() == s.len() + 1);
    assert(s.push(x)[s.len() as int] == x);
    assert(s.push(x).drop_last() =~= s);
}

impl Mime {
    /// The format a path's extension names, if any: `mime_of_path`.
    #[verifier::rlimit(60)]
    pub fn from_path(path: &str) -> (r: Option<Mime>)
        ensures
            r == mime_of_path(path@),
    {
        let n = path.unicode_len();
        // last '/' decides where the file name starts
        let mut start: usize = 0;
        let mut i: usize = 0;
        proof {
            assert(path@.take(0) =~= Seq::<char>::empty());
        }
        while i < n
            invariant
                i <= n,
                n == path@.len(),
                match rfind(path@.take(i as int), '/') {
                    Some(k) => start == k + 1,
                    None => start == 0,
                },
                start <= i,
            decreases n - i,
        {
            let c = path.get_char(i);
            proof {
                lemma_rfind_push(path@.take(i as int), path@[i as int], '/');
                assert(path@.take(i as int).push(path@[i as int]) =~= path@.take(i as int + 1));
            }
            if c == '/' {
                start = i + 1;
            }
            i = i + 1;
        }
        proof {
            assert(path@.take(n as int) =~= path@);
        }
        let ghost fname = path@.skip(start as int);
        // last '.' inside the file name decides the extension
        let mut dot: Option<usize> = None;
        let mut j: usize = 0;
        proof {
            assert(fname.take(0) =~= Seq::<char>::empty());
        }
        while start + j < n
            invariant
                start + j <= n,
                n == path@.len(),
                start <= n,
                fname == path@.skip(start as int),
                match rfind(fname.take(j as int), '.') {
                    Some(k) => 0 <= k < j && (dot matches Some(du) && du == k),
                    None => dot is None,
                },
            decreases n - start - j,
        {
            let c = path.get_char(start + j);
            proof {
                assert(fname[j as int] == path@[start + j]);
                lemma_rfind_push(fname.take(j as int), fname[j as int], '.');
                assert(fname.take(j as int).push(fname[j as int]) =~= fname.take(j as int + 1));
            }
            if c == '.' {
                dot = Some(j);
            }
            j = j + 1;
        }
        proof {
            assert(fname.take((n - start) as int) =~= fname);
        }
        let k = match dot {
            None => {
                return None;
            },
            Some(k) => k,
        };
        if k == 0 {
            return None;
        }
        // the extension runs from start + k + 1 to the end
        let elen = n - (start + k + 1);
        let e0 = start + k + 1;
        let ghost ext = path@.skip(e0 as int);
        proof {
            assert(fname.skip(k as int + 1) =~= path@.skip(e0 as int));
            assert(extension_of(path@) == Some(ext));
            assert(ext.len() == elen);
            assert(forall|m: int| 0 <= m < ext.len() ==> ext[m] == path@[e0 + m]);
        }
        if elen == 4 && path.get_char(e0) == 'j' && path.get_char(e0 + 1) == 's' && path.get_char(
            e0 + 2,
        ) == 'o' && path.get_char(e0 + 3) == 'n' {
            proof {
                assert(ext =~= seq!['j', 's', 'o', 'n']);
            }
            Some(Mime::Json)
        } else if elen == 6 && path.get_char(e0) == 'n' && path.get_char(e0 + 1) == 'd'
            && path.get_char(e0 + 2) == 'j' && path.get_char(e0 + 3) == 's' && path.get_char(
            e0 + 4,
        ) == 'o' && path.get_char(e0 + 5) == 'n' {
            proof {
                assert(ext =~= seq!['n', 'd', 'j', 's', 'o', 'n']);
            }
            Some(Mime::NdJson)
        } else if elen == 5 && path.get_char(e0) == 'j' && path.get_char(e0 + 1) == 's'
            && path.get_char(e0 + 2) == 'o' && path.get_char(e0 + 3) == 'n' && path.get_char(
            e0 + 4,
        ) == 'l' {
            proof {
                assert(ext =~= seq!['j', 's', 'o', 'n', 'l']);
            }
            Some(Mime::NdJson)
        } else if elen == 3 && path.get_char(e0) == 'c' && path.get_char(e0 + 1) == 's'
            && path.get_char(e0 + 2) == 'v' {
            proof {
                assert(ext =~= seq!['c', 's', 'v']);
            }
            Some(Mime::Csv)
        } else {
            proof {
                assert(ext != seq!['j', 's', 'o', 'n'] && ext != seq!['n', 'd', 'j', 's', 'o', 'n']
                    && ext != seq!['j', 's', 'o', 'n', 'l'] && ext != seq!['c', 's', 'v']) by {
                    if ext =~= seq!['j', 's', 'o', 'n'] {
                        assert(elen == 4 && path@[e0 as int] == 'j' && path@[e0 + 1] == 's'
                            && path@[e0 + 2] == 'o' && path@[e0 + 3] == 'n');
                    }
                    if ext =~= seq!['n', 'd', 'j', 's', 'o', 'n'] {
                        assert(elen == 6);
                    }
                    if ext =~= seq!['j', 's', 'o', 'n', 'l'] {
                        assert(elen == 5);
                    }
                    if ext =~= seq!['c', 's', 'v'] {
                        assert(elen == 3);
                    }
                }
            }
            None
        }
    }

    /// The content type this format is delivered under: `mime_str`.
    pub fn as_str(&self) -> (r: &'static str)
        ensures
            r@ == mime_str(*self),
    {
        match self {
            Mime::Json => "application/json",
            Mime::NdJson => "application/x-ndjson",
            Mime::Csv => "text/csv",
        }
    }

    /// The format this name designates, compared without regard to ASCII
    /// case: `mime_from_name`. `None` is the unsupported-format error.
    pub fn from_str(s: &str) -> (r: Option<Mime>)
        ensures
            r == mime_from_name(s@),
    {
        if matches_ci(s, "json") {
            proof {
                reveal_strlit("json");
                assert("json"@ =~= seq!['j', 's', 'o', 'n']);
            }
            Some(Mime::Json)
        } else if matches_ci(s, "ndjson") {
            proof {
                reveal_strlit("json");
                reveal_strlit("ndjson");
                assert("ndjson"@ =~= seq!['n', 'd', 'j', 's', 'o', 'n']);
                assert("json"@ =~= seq!['j', 's', 'o', 'n']);
            }
            Some(Mime::NdJson)
        } else if matches_ci(s, "jsonl") {
            proof {
                reveal_strlit("json");
                reveal_strlit("ndjson");
                reveal_strlit("jsonl");
                assert("json"@ =~= seq!['j', 's', 'o', 'n']);
                assert("ndjson"@ =~= seq!['n', 'd', 'j', 's', 'o', 'n']);
                assert("jsonl"@ =~= seq!['j', 's', 'o', 'n', 'l']);
            }
            Some(Mime::NdJson)
        } else if matches_ci(s, "csv") {
            proof {
                reveal_strlit("json");
                reveal_strlit("ndjson");
                reveal_strlit("jsonl");
                reveal_strlit("csv");
                assert("json"@ =~= seq!['j', 's', 'o', 'n']);
                assert("ndjson"@ =~= seq!['n', 'd', 'j', 's', 'o', 'n']);
                assert("jsonl"@ =~= seq!['j', 's', 'o', 'n', 'l']);
                assert("csv"@ =~= seq!['c', 's', 'v']);
            }
            Some(Mime::Csv)
        } else {
            proof {
                reveal_strlit("json");
                reveal_strlit("ndjson");
                reveal_strlit("jsonl");
                reveal_strlit("csv");
                assert("json"@ =~= seq!['j', 's', 'o', 'n']);
                assert("ndjson"@ =~= seq!['n', 'd', 'j', 's', 'o', 'n']);
                assert("jsonl"@ =~= seq!['j', 's', 'o', 'n', 'l']);
                assert("csv"@ =~= seq!['c', 's', 'v']);
            }
            None
        }
    }
}

/// Compares a name against a lower-case ASCII target without regard to
/// case: `name_matches`.
fn matches_ci(s: &str, t: &str) -> (r: bool)
    ensures
        r == name_matches(s@, t@),
{
    let ns = s.unicode_len();
    let nt = t.unicode_len();
    if ns != nt {
        return false;
    }
    let mut i: usize = 0;
    while i < ns
        invariant
            i <= ns,
            ns == s@.len(),
            ns == t@.len(),
            forall|m: int| 0 <= m < i ==> eq_ci(s@[m], #[trigger] t@[m]),
        decreases ns - i,
    {
        let a = s.get_char(i);
        let b = t.get_char(i);
        let au = a as u32;
        let bu = b as u32;
        if !(au == bu || (au >= 65 && au <= 90 && au + 32 == bu)) {
            return false;
        }
        i = i + 1;
    }
    true
}

} // verus!
