use vstd::prelude::*;

use crate::text::{dec_chars, dec_digits, str_eq, string_of};

verus! {

/// The substitution marker SQLite queries use.
pub const SQLITE_SUB: char = '?';

/// The substitution marker PostgreSQL queries use.
pub const POSTGRES_SUB: char = '$';

/// What rewriting a query can fail with.
#[derive(Clone, Copy, PartialEq, Eq, Structural, Debug)]
pub enum QueryError {
    /// Invalid query, quote left open.
    QuoteOpen,
}

/// What char::is_alphanumeric answers for a character; a function of the
/// character alone.
pub uninterp spec fn char_alphanumeric(c: char) -> bool;

/// Relies on char::is_alphanumeric: whether the character is a Unicode
/// letter or digit.
#[verifier::external_body]
fn is_alphanumeric_char(c: char) -> (r: bool)
    ensures
        r == char_alphanumeric(c),
{
    c.is_alphanumeric()
}

/// A character that may appear in an argument name or type annotation.
pub open spec fn name_char(c: char) -> bool {
    char_alphanumeric(c) || c == '_'
}

/// The first position at or after `i` that does not hold a name character.
pub open spec fn name_end(s: Seq<char>, i: int) -> int
    decreases s.len() - i,
{
    if 0 <= i < s.len() && name_char(s[i]) {
        name_end(s, i + 1)
    } else {
        i
    }
}

/// The first position at or after `i` that does not hold a backslash.
pub open spec fn run_end(s: Seq<char>, i: int) -> int
    decreases s.len() - i,
{
    if 0 <= i < s.len() && s[i] == '\\' {
        run_end(s, i + 1)
    } else {
        i
    }
}

/// The first argument, if any, already recorded under a name.
pub open spec fn find_arg(args: Seq<(Seq<char>, Option<Seq<char>>)>, name: Seq<char>) -> Option<
    int,
>
    decreases args.len(),
{
    if args.len() == 0 {
        None
    } else if args[0].0 == name {
        Some(0)
    } else {
        match find_arg(args.drop_first(), name) {
            None => None,
            Some(i) => Some(i + 1),
        }
    }
}

/// The machine's whole state between two characters of the query.
pub struct SqlState {
    pub i: int,
    pub quote_open: bool,
    pub args: Seq<(Seq<char>, Option<Seq<char>>)>,
    pub out: Seq<char>,
}

/// One step of the rewriting machine: a backslash run toggles escaping, an
/// unescaped quote toggles quoting, and an unescaped, unquoted `$` consumes
/// an argument name with an optional `::type` annotation, replacing it by the
/// substitution character and the argument's one-based position.
pub open spec fn sql_step(s: Seq<char>, st: SqlState, sub: char) -> SqlState {
    let k = run_end(s, st.i);
    let run_len = k - st.i;
    let i1 = if s[st.i] == '\\' {
        k
    } else {
        st.i
    };
    let esc = s[st.i] == '\\' && run_len % 2 != 0;
    let out1 = if s[st.i] == '\\' && run_len % 2 == 0 {
        st.out + Seq::new(run_len as nat, |x: int| '\\')
    } else {
        st.out
    };
    let c = s[i1];
    let qo2 = if c == '"' && !esc {
        !st.quote_open
    } else {
        st.quote_open
    };
    if c == '$' && !esc && !st.quote_open {
        let j = name_end(s, i1 + 1);
        let name = s.subrange(i1 + 1, j);
        let has_ty = j + 1 < s.len() && s[j] == ':' && s[j + 1] == ':';
        let j2 = if has_ty {
            name_end(s, j + 2)
        } else {
            j
        };
        let ty = if has_ty && name_end(s, j + 2) > j + 2 {
            Some(s.subrange(j + 2, name_end(s, j + 2)))
        } else {
            None::<Seq<char>>
        };
        let nxt0 = if j2 >= st.i + 1 {
            j2
        } else {
            st.i + 1
        };
        let nxt = if nxt0 > s.len() {
            s.len() as int
        } else {
            nxt0
        };
        if name.len() == 0 {
            SqlState { i: nxt, quote_open: qo2, args: st.args, out: out1 }
        } else {
            match find_arg(st.args, name) {
                Some(idx) => SqlState {
                    i: nxt,
                    quote_open: qo2,
                    args: st.args,
                    out: out1 + seq![sub] + dec_digits((idx + 1) as nat),
                },
                None => SqlState {
                    i: nxt,
                    quote_open: qo2,
                    args: st.args.push((name, ty)),
                    out: out1 + seq![sub] + dec_digits((st.args.len() + 1) as nat),
                },
            }
        }
    } else {
        let out2 = if esc {
            out1.push('\\').push(c)
        } else {
            out1.push(c)
        };
        let nxt0 = if i1 + 1 >= st.i + 1 {
            i1 + 1
        } else {
            st.i + 1
        };
        let nxt = if nxt0 > s.len() {
            s.len() as int
        } else {
            nxt0
        };
        SqlState { i: nxt, quote_open: qo2, args: st.args, out: out2 }
    }
}

/// Running the machine over the whole query: an open quote at the end is the
/// one error; otherwise the rewritten query and the arguments in first-use
/// order.
pub open spec fn sql_run(s: Seq<char>, st: SqlState, sub: char) -> Result<
    (Seq<char>, Seq<(Seq<char>, Option<Seq<char>>)>),
    QueryError,
>
    decreases s.len() - st.i,
{
    if st.i < 0 || st.i >= s.len() {
        if st.quote_open {
            Err(QueryError::QuoteOpen)
        } else {
            Ok((st.out, st.args))
        }
    } else {
        sql_run(s, sql_step(s, st, sub), sub)
    }
}

/// The values recorded for the arguments, as mathematics.
pub open spec fn args_view(v: Seq<(String, Option<String>)>) -> Seq<
    (Seq<char>, Option<Seq<char>>),
> {
    v.map_values(
        |p: (String, Option<String>)|
            (
                p.0@,
                match p.1 {
                    Some(t) => Some(t@),
                    None => None::<Seq<char>>,
                },
            ),
    )
}

proof fn lemma_run_end_bounds(s: Seq<char>, i: int)
    requires
        0 <= i <= s.len(),
    ensures
        i <= run_end(s, i) <= s.len(),
        i < s.len() && s[i] == '\\' ==> run_end(s, i) > i,
    decreases s.len() - i,
{
    if i < s.len() && s[i] == '\\' {
        lemma_run_end_bounds(s, i + 1);
    }
}

proof fn lemma_name_end_bounds(s: Seq<char>, i: int)
    requires
        0 <= i <= s.len(),
    ensures
        i <= name_end(s, i) <= s.len(),
    decreases s.len() - i,
{
    if i < s.len() && name_char(s[i]) {
        lemma_name_end_bounds(s, i + 1);
    }
}

fn scan_name(chars: &Vec<char>, from: usize) -> (r: (Vec<char>, usize))
    requires
        from <= chars@.len(),
    ensures
        r.1 == name_end(chars@, from as int),
        r.0@ == chars@.subrange(from as int, r.1 as int),
        from <= r.1 <= chars@.len(),
{
    let n = chars.len();
    let mut v: Vec<char> = Vec::new();
    let mut i: usize = from;
    proof {
        lemma_name_end_bounds(chars@, from as int);
        assert(v@ =~= chars@.subrange(from as int, from as int));
    }
    while i < n && is_alphanumeric_char(chars[i]) || i < n && chars[i] == '_'
        invariant
            n == chars@.len(),
            from <= i <= n,
            name_end(chars@, from as int) == name_end(chars@, i as int),
            v@ == chars@.subrange(from as int, i as int),
        decreases n - i,
    {
        v.push(chars[i]);
        proof {
            assert(v@ =~= chars@.subrange(from as int, i + 1));
        }
        i += 1;
    }
    (v, i)
}

fn find_arg_exec(args: &Vec<(String, Option<String>)>, name: &Vec<char>) -> (r: Option<usize>)
    ensures
        match find_arg(args_view(args@), name@) {
            Some(i) => r matches Some(x) && x == i && x < args@.len(),
            None => r is None,
        },
{
    let n = args.len();
    let mut i: usize = 0;
    proof {
        assert(args_view(args@).subrange(0, n as int) =~= args_view(args@));
    }
    while i < n
        invariant
            n == args@.len(),
            i <= n,
            ({
                let whole = find_arg(args_view(args@), name@);
                let rest = find_arg(args_view(args@).subrange(i as int, n as int), name@);
                match (whole, rest) {
                    (Some(w), Some(q)) => w == i + q,
                    (None, None) => true,
                    _ => false,
                }
            }),
        decreases n - i,
    {
        let ghost rem = args_view(args@).subrange(i as int, n as int);
        proof {
            assert(rem[0] == args_view(args@)[i as int]);
            assert(rem.drop_first() =~= args_view(args@).subrange(i + 1 as int, n as int));
        }
        if str_eq(args[i].0.as_str(), string_of(name).as_str()) {
            return Some(i);
        }
        i += 1;
    }
    proof {
        assert(args_view(args@).subrange(n as int, n as int) =~= Seq::<
            (Seq<char>, Option<Seq<char>>),
        >::empty());
    }
    None
}

/// Append all characters of one vector to another.
fn append_chars(out: &mut Vec<char>, v: &Vec<char>)
    ensures
        final(out)@ == old(out)@ + v@,
{
    let n = v.len();
    let mut d: usize = 0;
    proof {
        assert(out@ =~= old(out)@ + v@.subrange(0, 0));
    }
    while d < n
        invariant
            n == v@.len(),
            d <= n,
            out@ == old(out)@ + v@.subrange(0, d as int),
        decreases n - d,
    {
        out.push(v[d]);
        proof {
            assert(out@ =~= old(out)@ + v@.subrange(0, d + 1));
        }
        d += 1;
    }
    proof {
        assert(v@.subrange(0, n as int) =~= v@);
    }
}

/// Rewrite `$name` and `$name::type` placeholders of a query into numbered
/// substitutions, collecting each distinct argument once, in first-use order.
/// A query that ends in a backslash is not accepted: the machine would read
/// past its end.
pub fn extract_arguments(query: &str, sub: char) -> (r: Result<
    (String, Vec<(String, Option<String>)>),
    QueryError,
>)
    requires
        query@.len() > 0 ==> query@.last() != '\\',
    ensures
        ({
            let init = SqlState {
                i: 0,
                quote_open: false,
                args: Seq::empty(),
                out: Seq::empty(),
            };
            match sql_run(query@, init, sub) {
                Ok(p) => r matches Ok(q) && q.0@ == p.0 && args_view(q.1@) == p.1,
                Err(e) => r matches Err(e2) && e2 == e,
            }
        }),
{
    let chars = crate::text::chars_of(query);
    let n = chars.len();
    let mut i: usize = 0;
    let mut quote_open = false;
    let mut args: Vec<(String, Option<String>)> = Vec::new();
    let mut out: Vec<char> = Vec::new();
    let ghost init = SqlState { i: 0, quote_open: false, args: Seq::empty(), out: Seq::empty() };
    proof {
        assert(args_view(args@) =~= Seq::<(Seq<char>, Option<Seq<char>>)>::empty());
        assert(out@ =~= Seq::<char>::empty());
    }
    while i < n
        invariant
            n == chars@.len(),
            chars@ == query@,
            query@.len() > 0 ==> query@.last() != '\\',
            i <= n,
            args@.len() <= i,
            sql_run(query@, init, sub) == sql_run(
                query@,
                SqlState {
                    i: i as int,
                    quote_open: quote_open,
                    args: args_view(args@),
                    out: out@,
                },
                sub,
            ),
        decreases n - i,
    {
        let ghost st = SqlState {
            i: i as int,
            quote_open: quote_open,
            args: args_view(args@),
            out: out@,
        };
        let ghost stepped = sql_step(query@, st, sub);
        let mut escaped = false;
        proof {
            lemma_run_end_bounds(chars@, i as int);
        }
        if chars[i] == '\\' {
            let mut count: usize = 0;
            while i < n && chars[i] == '\\'
                invariant
                    n == chars@.len(),
                    0 <= st.i <= i as int,
                    i <= n,
                    run_end(chars@, st.i) == run_end(chars@, i as int),
                    count == i - st.i,
                    count > 0 ==> chars@[i - 1] == '\\',
                decreases n - i,
            {
                count += 1;
                i += 1;
            }
            proof {
                assert(run_end(chars@, st.i) == i as int);
                if i == n {
                    assert(count > 0);
                    assert(chars@[n - 1] == '\\');
                    assert(query@.last() == '\\');
                    assert(false);
                }
            }
            if count % 2 == 0 {
                let mut c2: usize = 0;
                let ghost out_pre = out@;
                while c2 < count
                    invariant
                        c2 <= count,
                        out@ == out_pre + Seq::new(c2 as nat, |x: int| '\\'),
                    decreases count - c2,
                {
                    out.push('\\');
                    proof {
                        assert(out@ =~= out_pre + Seq::new((c2 + 1) as nat, |x: int| '\\'));
                    }
                    c2 += 1;
                }
            } else {
                escaped = true;
            }
        }
        let c = chars[i];
        if c == '"' && !escaped {
            quote_open = !quote_open;
        }
        if c == '$' && !escaped && !quote_open {
            let (name, j) = scan_name(&chars, i + 1);
            let has_ty = j < n && chars[j] == ':' && j + 1 < n && chars[j + 1] == ':';
            let mut ty: Option<String> = None;
            let mut j2 = j;
            if has_ty {
                let (tyname, k2) = scan_name(&chars, j + 2);
                if k2 > j + 2 {
                    ty = Some(string_of(&tyname));
                }
                j2 = k2;
            }
            if name.len() > 0 {
                match find_arg_exec(&args, &name) {
                    Some(idx) => {
                        out.push(sub);
                        let digits = dec_chars(idx + 1);
                        append_chars(&mut out, &digits);
                    },
                    None => {
                        out.push(sub);
                        let digits = dec_chars(args.len() + 1);
                        append_chars(&mut out, &digits);
                        let ghost args_pre = args@;
                        args.push((string_of(&name), ty));
                        proof {
                            assert(args_view(args@) =~= args_view(args_pre).push(
                                (name@, match ty {
                                    Some(t) => Some(t@),
                                    None => None::<Seq<char>>,
                                }),
                            ));
                        }
                    },
                }
            }
            i = if j2 >= i + 1 {
                j2
            } else {
                i + 1
            };
        } else {
            if escaped {
                out.push('\\');
            }
            out.push(c);
            i += 1;
        }
        proof {
            assert(out@ =~= stepped.out);
            assert(args_view(args@) =~= stepped.args);
            assert(i as int == stepped.i);
            assert(quote_open == stepped.quote_open);
            assert(SqlState {
                i: i as int,
                quote_open: quote_open,
                args: args_view(args@),
                out: out@,
            } == stepped);
        }
    }
    if quote_open {
        Err(QueryError::QuoteOpen)
    } else {
        Ok((string_of(&out), args))
    }
}

} // verus!
