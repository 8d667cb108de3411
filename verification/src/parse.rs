//! Parsing markup into a node forest.
//!
//! The pipeline has three layers. A character-level lexer cuts the input
//! into tokens, keeping quoted stretches inside tags intact and switching
//! into a comment mode on `<!--`. A tag classifier shapes each bracketed
//! tag text into a typed token, using an attribute sub-parser for the text
//! between the tag name and the closing bracket. A tree builder folds the
//! token sequence into a forest: an opening tag captures the tokens up to
//! the rightmost closing tag of the same name for which those tokens
//! themselves form a well-shaped forest, and becomes childless when no such
//! closing tag exists.
//!
//! Malformed input fails the whole parse with a typed [`HtmlError`]; no
//! partial forest is returned.

use vstd::prelude::*;

use crate::{
    attrs_view, chars_string, is_space, is_space_char, lemma_node_view_element, node_view,
    nodes_view, rscan_spaces, skip_spaces, spec_trim_text, str_chars, trim_chars,
};
use crate::{HtmlError, Node, SpecNode};

verus! {

/// Mathematical model of a lexical token.
pub enum SpecToken {
    Start(Seq<char>, Seq<(Seq<char>, Seq<char>)>),
    End(Seq<char>),
    SelfClosing(Seq<char>, Seq<(Seq<char>, Seq<char>)>),
    Doctype,
    Comment(Seq<char>),
    Text(Seq<char>),
}

/// A lexical token: transient, consumed by the tree builder.
pub(crate) enum Token {
    Start(String, Vec<(String, String)>),
    End(String),
    SelfClosing(String, Vec<(String, String)>),
    Doctype,
    Comment(String),
    Text(String),
}

/// The model of an executable token.
pub(crate) open spec fn token_view(t: Token) -> SpecToken {
    match t {
        Token::Start(name, attrs) => SpecToken::Start(name@, attrs_view(attrs@)),
        Token::End(name) => SpecToken::End(name@),
        Token::SelfClosing(name, attrs) => SpecToken::SelfClosing(name@, attrs_view(attrs@)),
        Token::Doctype => SpecToken::Doctype,
        Token::Comment(t2) => SpecToken::Comment(t2@),
        Token::Text(t2) => SpecToken::Text(t2@),
    }
}

/// The models of an executable token sequence.
pub(crate) open spec fn tokens_view(ts: Seq<Token>) -> Seq<SpecToken> {
    ts.map_values(|t: Token| token_view(t))
}

/// The state of the attribute sub-parser.
#[derive(Clone, Copy, PartialEq, Eq, Structural)]
pub enum AttrState {
    /// Accumulating a key.
    Key,
    /// Just after `=`.
    Equal,
    /// Accumulating an unquoted value.
    ValueUnq,
    /// Accumulating a value quoted with the carried character.
    ValueQ(char),
    /// Between attributes.
    Space,
}

/// The keys and values collected from the attribute text `s[k..]`, starting
/// in state `st` with buffered characters `buf`. A key closed by `=` awaits
/// its value; a key closed by a space takes the empty value; an unquoted
/// value runs to the next space; a quoted value runs to the first unescaped
/// matching quote. The end of input flushes a non-empty buffer into the key
/// or value list of the current state.
pub open spec fn spec_attr_scan(
    s: Seq<char>,
    k: int,
    st: AttrState,
    buf: Seq<char>,
    keys: Seq<Seq<char>>,
    vals: Seq<Seq<char>>,
) -> (Seq<Seq<char>>, Seq<Seq<char>>)
    decreases s.len() - k,
{
    if !(0 <= k < s.len()) {
        match st {
            AttrState::Key => if buf.len() > 0 {
                (keys.push(buf), vals)
            } else {
                (keys, vals)
            },
            AttrState::ValueUnq => (keys, vals.push(buf)),
            AttrState::ValueQ(_) => if buf.len() > 0 {
                (keys, vals.push(buf))
            } else {
                (keys, vals)
            },
            _ => (keys, vals),
        }
    } else {
        let c = s[k];
        match st {
            AttrState::Key => if c == '=' {
                spec_attr_scan(s, k + 1, AttrState::Equal, Seq::empty(), keys.push(buf), vals)
            } else if is_space(c) {
                spec_attr_scan(
                    s,
                    k + 1,
                    AttrState::Space,
                    Seq::empty(),
                    keys.push(buf),
                    vals.push(Seq::empty()),
                )
            } else {
                spec_attr_scan(s, k + 1, AttrState::Key, buf.push(c), keys, vals)
            },
            AttrState::Equal => if c == '"' || c == '\'' {
                spec_attr_scan(s, k + 1, AttrState::ValueQ(c), Seq::empty(), keys, vals)
            } else {
                spec_attr_scan(s, k + 1, AttrState::ValueUnq, seq![c], keys, vals)
            },
            AttrState::ValueUnq => if is_space(c) {
                spec_attr_scan(s, k + 1, AttrState::Space, Seq::empty(), keys, vals.push(buf))
            } else {
                spec_attr_scan(s, k + 1, AttrState::ValueUnq, buf.push(c), keys, vals)
            },
            AttrState::ValueQ(q) => if c == q && (buf.len() == 0 || buf[buf.len() - 1] != '\\') {
                spec_attr_scan(s, k + 1, AttrState::Space, Seq::empty(), keys, vals.push(buf))
            } else {
                spec_attr_scan(s, k + 1, AttrState::ValueQ(q), buf.push(c), keys, vals)
            },
            AttrState::Space => if is_space(c) {
                spec_attr_scan(s, k + 1, AttrState::Space, Seq::empty(), keys, vals)
            } else {
                spec_attr_scan(s, k + 1, AttrState::Key, seq![c], keys, vals)
            },
        }
    }
}

/// The first index at or after `j` whose pair has key `key`.
pub open spec fn spec_key_index(m: Seq<(Seq<char>, Seq<char>)>, key: Seq<char>, j: int) -> Option<
    int,
>
    decreases m.len() - j,
{
    if !(0 <= j < m.len()) {
        None
    } else if m[j].0 == key {
        Some(j)
    } else {
        spec_key_index(m, key, j + 1)
    }
}

/// `m` with `key` bound to `val`: the value replaced in place when the key
/// exists, the pair appended otherwise.
pub open spec fn spec_assoc_put(
    m: Seq<(Seq<char>, Seq<char>)>,
    key: Seq<char>,
    val: Seq<char>,
) -> Seq<(Seq<char>, Seq<char>)> {
    match spec_key_index(m, key, 0) {
        Some(j) => m.update(j, (key, val)),
        None => m.push((key, val)),
    }
}

/// The attribute map built by binding the key/value pairs from index `j`
/// on, in order, into `acc`: a later occurrence of a key wins.
pub open spec fn spec_assoc_from(
    keys: Seq<Seq<char>>,
    vals: Seq<Seq<char>>,
    j: int,
    acc: Seq<(Seq<char>, Seq<char>)>,
) -> Seq<(Seq<char>, Seq<char>)>
    decreases keys.len() - j,
{
    if !(0 <= j < keys.len()) {
        acc
    } else {
        spec_assoc_from(keys, vals, j + 1, spec_assoc_put(acc, keys[j], vals[j]))
    }
}

/// The attribute map denoted by the attribute text, or
/// [`HtmlError::AttributeParseError`] when the scan collects unequal
/// numbers of keys and values.
pub open spec fn spec_parse_attrs(s: Seq<char>) -> Result<
    Seq<(Seq<char>, Seq<char>)>,
    HtmlError,
> {
    let (keys, vals) = spec_attr_scan(
        s,
        0,
        AttrState::Key,
        Seq::empty(),
        Seq::empty(),
        Seq::empty(),
    );
    if keys.len() != vals.len() {
        Err(HtmlError::AttributeParseError)
    } else {
        Ok(spec_assoc_from(keys, vals, 0, Seq::empty()))
    }
}

/// Binds `key` to `val` in the attribute map, replacing the value in place
/// when the key exists and appending the pair otherwise.
fn attr_put(m: &mut Vec<(String, String)>, key: String, val: String)
    ensures
        attrs_view(final(m)@) == spec_assoc_put(attrs_view(old(m)@), key@, val@),
{
    let ghost av = attrs_view(m@);
    let mut j: usize = 0;
    while j < m.len()
        invariant
            0 <= j <= m.len(),
            av == attrs_view(m@),
            av.len() == m@.len(),
            m@ == old(m)@,
            spec_key_index(av, key@, 0) == spec_key_index(av, key@, j as int),
        decreases m.len() - j,
    {
        proof {
            assert(av[j as int] == (m@[j as int].0@, m@[j as int].1@));
        }
        if m[j].0 == key {
            m[j] = (key, val);
            proof {
                assert(attrs_view(m@) =~= spec_assoc_put(av, key@, val@));
            }
            return ;
        }
        j = j + 1;
    }
    m.push((key, val));
    proof {
        assert(attrs_view(m@) =~= spec_assoc_put(av, key@, val@));
    }
}

/// The attribute map of the key and value lists, bound in order.
fn build_attrs(keys: &Vec<String>, vals: &Vec<String>) -> (r: Vec<(String, String)>)
    requires
        keys@.len() == vals@.len(),
    ensures
        attrs_view(r@) == spec_assoc_from(keys.deep_view(), vals.deep_view(), 0, Seq::empty()),
{
    let ghost kv = keys.deep_view();
    let ghost vv = vals.deep_view();
    let mut m: Vec<(String, String)> = Vec::new();
    let mut j: usize = 0;
    proof {
        assert(attrs_view(m@) =~= Seq::<(Seq<char>, Seq<char>)>::empty());
    }
    while j < keys.len()
        invariant
            0 <= j <= keys.len(),
            keys@.len() == vals@.len(),
            kv == keys.deep_view(),
            vv == vals.deep_view(),
            kv.len() == keys@.len(),
            vv.len() == vals@.len(),
            spec_assoc_from(kv, vv, j as int, attrs_view(m@)) == spec_assoc_from(
                kv,
                vv,
                0,
                Seq::empty(),
            ),
        decreases keys.len() - j,
    {
        proof {
            assert(kv[j as int] == keys@[j as int]@);
            assert(vv[j as int] == vals@[j as int]@);
        }
        attr_put(&mut m, keys[j].clone(), vals[j].clone());
        j = j + 1;
    }
    m
}

/// The attribute map denoted by the attribute text.
fn parse_attrs(s: &Vec<char>) -> (r: Result<Vec<(String, String)>, HtmlError>)
    ensures
        (match spec_parse_attrs(s@) {
            Ok(a) => r matches Ok(m) && attrs_view(m@) == a,
            Err(e) => r matches Err(e2) && e2 == e,
        }),
{
    let mut st = AttrState::Key;
    let mut buf: Vec<char> = Vec::new();
    let mut keys: Vec<String> = Vec::new();
    let mut vals: Vec<String> = Vec::new();
    let mut k: usize = 0;
    proof {
        assert(keys.deep_view() =~= Seq::<Seq<char>>::empty());
        assert(vals.deep_view() =~= Seq::<Seq<char>>::empty());
    }
    while k < s.len()
        invariant
            0 <= k <= s.len(),
            (st is Space ==> buf@.len() == 0),
            (spec_attr_scan(s@, k as int, st, buf@, keys.deep_view(), vals.deep_view())
                == spec_attr_scan(
                s@,
                0,
                AttrState::Key,
                Seq::empty(),
                Seq::empty(),
                Seq::empty(),
            )),
        decreases s.len() - k,
    {
        let c = s[k];
        let ghost old_keys = keys.deep_view();
        let ghost old_vals = vals.deep_view();
        let ghost old_buf = buf@;
        match st {
            AttrState::Key => {
                if c == '=' {
                    let text = chars_string(&buf, 0, buf.len());
                    proof {
                        assert(text@ =~= old_buf);
                    }
                    keys.push(text);
                    buf = Vec::new();
                    st = AttrState::Equal;
                    proof {
                        assert(keys.deep_view() =~= old_keys.push(old_buf));
                    }
                } else if is_space_char(c) {
                    let text = chars_string(&buf, 0, buf.len());
                    proof {
                        assert(text@ =~= old_buf);
                    }
                    keys.push(text);
                    vals.push(String::new());
                    buf = Vec::new();
                    st = AttrState::Space;
                    proof {
                        assert(keys.deep_view() =~= old_keys.push(old_buf));
                        assert(vals.deep_view() =~= old_vals.push(Seq::<char>::empty()));
                    }
                } else {
                    buf.push(c);
                }
            },
            AttrState::Equal => {
                if c == '"' || c == '\'' {
                    buf = Vec::new();
                    st = AttrState::ValueQ(c);
                } else {
                    buf = Vec::new();
                    buf.push(c);
                    st = AttrState::ValueUnq;
                    proof {
                        assert(buf@ =~= seq![c]);
                    }
                }
            },
            AttrState::ValueUnq => {
                if is_space_char(c) {
                    let text = chars_string(&buf, 0, buf.len());
                    proof {
                        assert(text@ =~= old_buf);
                    }
                    vals.push(text);
                    buf = Vec::new();
                    st = AttrState::Space;
                    proof {
                        assert(vals.deep_view() =~= old_vals.push(old_buf));
                    }
                } else {
                    buf.push(c);
                }
            },
            AttrState::ValueQ(q) => {
                if c == q && (buf.len() == 0 || buf[buf.len() - 1] != '\\') {
                    let text = chars_string(&buf, 0, buf.len());
                    proof {
                        assert(text@ =~= old_buf);
                    }
                    vals.push(text);
                    buf = Vec::new();
                    st = AttrState::Space;
                    proof {
                        assert(vals.deep_view() =~= old_vals.push(old_buf));
                    }
                } else {
                    buf.push(c);
                }
            },
            AttrState::Space => {
                if is_space_char(c) {
                    proof {
                        assert(buf@ =~= Seq::<char>::empty());
                    }
                } else {
                    buf = Vec::new();
                    buf.push(c);
                    st = AttrState::Key;
                    proof {
                        assert(buf@ =~= seq![c]);
                    }
                }
            },
        }
        k = k + 1;
    }
    let ghost end_keys = keys.deep_view();
    let ghost end_vals = vals.deep_view();
    let ghost end_buf = buf@;
    match st {
        AttrState::Key => {
            if buf.len() > 0 {
                let text = chars_string(&buf, 0, buf.len());
                proof {
                    assert(text@ =~= end_buf);
                }
                keys.push(text);
                proof {
                    assert(keys.deep_view() =~= end_keys.push(end_buf));
                }
            }
        },
        AttrState::ValueUnq => {
            let text = chars_string(&buf, 0, buf.len());
            proof {
                assert(text@ =~= end_buf);
            }
            vals.push(text);
            proof {
                assert(vals.deep_view() =~= end_vals.push(end_buf));
            }
        },
        AttrState::ValueQ(_) => {
            if buf.len() > 0 {
                let text = chars_string(&buf, 0, buf.len());
                proof {
                    assert(text@ =~= end_buf);
                }
                vals.push(text);
                proof {
                    assert(vals.deep_view() =~= end_vals.push(end_buf));
                }
            }
        },
        _ => {},
    }
    if keys.len() != vals.len() {
        Err(HtmlError::AttributeParseError)
    } else {
        Ok(build_attrs(&keys, &vals))
    }
}

/// The first index at or after `k` whose character is whitespace, or the
/// length of `s`: the end of the name run starting at `k`.
pub open spec fn spec_name_end(s: Seq<char>, k: int) -> int
    decreases s.len() - k,
{
    if !(0 <= k < s.len()) {
        k
    } else if is_space(s[k]) {
        k
    } else {
        spec_name_end(s, k + 1)
    }
}

/// Bounds of `spec_name_end`.
pub proof fn lemma_name_end_bounds(s: Seq<char>, k: int)
    requires
        0 <= k <= s.len(),
    ensures
        k <= spec_name_end(s, k) <= s.len(),
    decreases s.len() - k,
{
    if k < s.len() && !is_space(s[k]) {
        lemma_name_end_bounds(s, k + 1);
    }
}

/// The name and the trimmed attribute text of a tag's bracketless content:
/// the name is the first maximal whitespace-free run, the attribute text
/// everything after it.
pub open spec fn spec_split_tag(content: Seq<char>) -> (Seq<char>, Seq<char>) {
    let b = skip_spaces(content, 0);
    let e = spec_name_end(content, b);
    (
        content.subrange(b, e),
        spec_trim_text(content.subrange(e, content.len() as int)),
    )
}

/// The characters `v[from..to]`.
fn slice_chars(v: &Vec<char>, from: usize, to: usize) -> (r: Vec<char>)
    requires
        from <= to <= v@.len(),
    ensures
        r@ == v@.subrange(from as int, to as int),
{
    let mut r: Vec<char> = Vec::new();
    let mut i: usize = from;
    while i < to
        invariant
            from <= i <= to <= v@.len(),
            r@ == v@.subrange(from as int, i as int),
        decreases to - i,
    {
        r.push(v[i]);
        proof {
            assert(r@ =~= v@.subrange(from as int, i + 1));
        }
        i = i + 1;
    }
    r
}

/// The name of the tag content and the index just past it, with the
/// leading whitespace skipped.
fn scan_name(content: &Vec<char>) -> (r: (String, usize))
    ensures
        r.0@ == spec_split_tag(content@).0,
        r.1 == spec_name_end(content@, skip_spaces(content@, 0)),
        skip_spaces(content@, 0) <= r.1 <= content@.len(),
{
    let n = content.len();
    let mut b: usize = 0;
    while b < n && is_space_char(content[b])
        invariant
            0 <= b <= n,
            n == content@.len(),
            skip_spaces(content@, 0) == skip_spaces(content@, b as int),
        decreases n - b,
    {
        b = b + 1;
    }
    proof {
        assert(skip_spaces(content@, b as int) == b);
    }
    let mut e: usize = b;
    while e < n && !is_space_char(content[e])
        invariant
            b <= e <= n,
            n == content@.len(),
            spec_name_end(content@, b as int) == spec_name_end(content@, e as int),
        decreases n - e,
    {
        e = e + 1;
    }
    proof {
        assert(spec_name_end(content@, e as int) == e);
    }
    let name = chars_string(content, b, e);
    (name, e)
}

/// Whether the classifier result `r` carries out the model result `s`.
pub(crate) open spec fn token_res_matches(
    r: Result<Token, HtmlError>,
    s: Result<SpecToken, HtmlError>,
) -> bool {
    match s {
        Ok(st) => r matches Ok(t) && token_view(t) == st,
        Err(e) => r matches Err(e2) && e2 == e,
    }
}

/// The typed token denoted by a full bracketed tag text: a `/>` ending
/// makes a self-closing tag, a `</` start a closing tag, a `<!--` start a
/// comment, any other `<!` start a doctype, and any other `<` start an
/// opening tag. A name-carrying shape with an empty name, or text of no
/// shape above, is malformed.
pub open spec fn spec_classify(t: Seq<char>) -> Result<SpecToken, HtmlError> {
    if t.len() >= 2 && t[t.len() - 2] == '/' && t[t.len() - 1] == '>' {
        let content = if t.len() >= 3 {
            t.subrange(1, t.len() - 2)
        } else {
            Seq::empty()
        };
        let parts = spec_split_tag(content);
        if parts.0.len() == 0 {
            Err(HtmlError::MalformedTag)
        } else {
            match spec_parse_attrs(parts.1) {
                Ok(a) => Ok(SpecToken::SelfClosing(parts.0, a)),
                Err(e) => Err(e),
            }
        }
    } else if t.len() >= 2 && t[0] == '<' && t[1] == '/' {
        let content = if t.len() >= 3 {
            t.subrange(2, t.len() - 1)
        } else {
            Seq::empty()
        };
        let parts = spec_split_tag(content);
        if parts.0.len() == 0 {
            Err(HtmlError::MalformedTag)
        } else {
            Ok(SpecToken::End(parts.0))
        }
    } else if t.len() >= 4 && t[0] == '<' && t[1] == '!' && t[2] == '-' && t[3] == '-' {
        Ok(
            SpecToken::Comment(
                if t.len() >= 7 {
                    t.subrange(4, t.len() - 3)
                } else {
                    Seq::empty()
                },
            ),
        )
    } else if t.len() >= 2 && t[0] == '<' && t[1] == '!' {
        Ok(SpecToken::Doctype)
    } else if t.len() >= 1 && t[0] == '<' {
        let content = if t.len() >= 2 {
            t.subrange(1, t.len() - 1)
        } else {
            Seq::empty()
        };
        let parts = spec_split_tag(content);
        if parts.0.len() == 0 {
            Err(HtmlError::MalformedTag)
        } else {
            match spec_parse_attrs(parts.1) {
                Ok(a) => Ok(SpecToken::Start(parts.0, a)),
                Err(e) => Err(e),
            }
        }
    } else {
        Err(HtmlError::MalformedTag)
    }
}

/// The typed token denoted by a full bracketed tag text.
fn classify(t: &Vec<char>) -> (r: Result<Token, HtmlError>)
    ensures
        token_res_matches(r, spec_classify(t@)),
{
    let n = t.len();
    if n >= 2 && t[n - 2] == '/' && t[n - 1] == '>' {
        let content = if n >= 3 {
            slice_chars(t, 1, n - 2)
        } else {
            Vec::new()
        };
        proof {
            assert(t@.subrange(1, t@.len() - 2) =~= content@ || t@.len() < 3);
            lemma_skip_and_name_bounds(content@);
        }
        let (name, e) = scan_name(&content);
        if name.as_str().is_empty() {
            Err(HtmlError::MalformedTag)
        } else {
            let rest = slice_chars(&content, e, content.len());
            let attr_text = trim_chars(&rest);
            proof {
                assert(rest@ =~= content@.subrange(e as int, content@.len() as int));
            }
            match parse_attrs(&attr_text) {
                Ok(attrs) => Ok(Token::SelfClosing(name, attrs)),
                Err(e2) => Err(e2),
            }
        }
    } else if n >= 2 && t[0] == '<' && t[1] == '/' {
        let content = if n >= 3 {
            slice_chars(t, 2, n - 1)
        } else {
            Vec::new()
        };
        proof {
            assert(t@.subrange(2, t@.len() - 1) =~= content@ || t@.len() < 3);
            lemma_skip_and_name_bounds(content@);
        }
        let (name, _e) = scan_name(&content);
        if name.as_str().is_empty() {
            Err(HtmlError::MalformedTag)
        } else {
            Ok(Token::End(name))
        }
    } else if n >= 4 && t[0] == '<' && t[1] == '!' && t[2] == '-' && t[3] == '-' {
        let inner = if n >= 7 {
            chars_string(t, 4, n - 3)
        } else {
            String::new()
        };
        Ok(Token::Comment(inner))
    } else if n >= 2 && t[0] == '<' && t[1] == '!' {
        Ok(Token::Doctype)
    } else if n >= 1 && t[0] == '<' {
        let content = if n >= 2 {
            slice_chars(t, 1, n - 1)
        } else {
            Vec::new()
        };
        proof {
            assert(t@.subrange(1, t@.len() - 1) =~= content@ || t@.len() < 2);
            lemma_skip_and_name_bounds(content@);
        }
        let (name, e) = scan_name(&content);
        if name.as_str().is_empty() {
            Err(HtmlError::MalformedTag)
        } else {
            let rest = slice_chars(&content, e, content.len());
            let attr_text = trim_chars(&rest);
            proof {
                assert(rest@ =~= content@.subrange(e as int, content@.len() as int));
            }
            match parse_attrs(&attr_text) {
                Ok(attrs) => Ok(Token::Start(name, attrs)),
                Err(e2) => Err(e2),
            }
        }
    } else {
        Err(HtmlError::MalformedTag)
    }
}

/// Bounds of the name scan over a tag content.
proof fn lemma_skip_and_name_bounds(content: Seq<char>)
    ensures
        0 <= skip_spaces(content, 0) <= content.len(),
        (skip_spaces(content, 0) <= spec_name_end(content, skip_spaces(content, 0))
            <= content.len()),
{
    crate::lemma_skip_spaces_bounds(content, 0);
    lemma_name_end_bounds(content, skip_spaces(content, 0));
}

/// The state of the lexer: accumulating plain text, a tag (with the quote
/// character when inside a quoted stretch), or a comment.
pub enum LexState {
    Text(Seq<char>),
    Tag(Seq<char>, Option<char>),
    Comment(Seq<char>),
}

/// Whether a tag buffer has just become a comment opener: exactly the four
/// characters `<!--`.
pub open spec fn is_comment_open(buf: Seq<char>) -> bool {
    buf.len() == 4 && buf[0] == '<' && buf[1] == '!' && buf[2] == '-' && buf[3] == '-'
}

/// Whether a comment buffer is complete: long enough that its closer
/// shares nothing with its `<!--` opener, and ending in `-->`.
pub open spec fn is_comment_closed(buf: Seq<char>) -> bool {
    buf.len() >= 7 && buf[buf.len() - 3] == '-' && buf[buf.len() - 2] == '-' && buf[buf.len() - 1]
        == '>'
}

/// The tokens of the input from index `k` on, appended to `acc`, starting
/// in state `st`. In text, `<` flushes any pending text and opens a tag; in
/// a tag, `>` outside quotes closes it through the classifier, a quote
/// character opens a quoted stretch which only its unescaped partner
/// closes, and a buffer of exactly `<!--` switches to a comment; a comment
/// runs verbatim until `-->`. Input ending inside a tag or comment fails.
pub open spec fn spec_lex(s: Seq<char>, k: int, st: LexState, acc: Seq<SpecToken>) -> Result<
    Seq<SpecToken>,
    HtmlError,
>
    decreases s.len() - k,
{
    if !(0 <= k < s.len()) {
        match st {
            LexState::Text(buf) => Ok(
                if buf.len() == 0 {
                    acc
                } else {
                    acc.push(SpecToken::Text(buf))
                },
            ),
            LexState::Tag(_, _) => Err(HtmlError::UnterminatedTag),
            LexState::Comment(_) => Err(HtmlError::UnterminatedComment),
        }
    } else {
        let c = s[k];
        match st {
            LexState::Text(buf) => if c == '<' {
                spec_lex(
                    s,
                    k + 1,
                    LexState::Tag(seq!['<'], None),
                    if buf.len() == 0 {
                        acc
                    } else {
                        acc.push(SpecToken::Text(buf))
                    },
                )
            } else {
                spec_lex(s, k + 1, LexState::Text(buf.push(c)), acc)
            },
            LexState::Tag(buf, Some(q)) => if c == q && buf[buf.len() - 1] != '\\' {
                spec_lex(s, k + 1, LexState::Tag(buf.push(c), None), acc)
            } else {
                spec_lex(s, k + 1, LexState::Tag(buf.push(c), Some(q)), acc)
            },
            LexState::Tag(buf, None) => if c == '>' {
                match spec_classify(buf.push('>')) {
                    Ok(tok) => spec_lex(s, k + 1, LexState::Text(Seq::empty()), acc.push(tok)),
                    Err(e) => Err(e),
                }
            } else if c == '"' || c == '\'' {
                spec_lex(s, k + 1, LexState::Tag(buf.push(c), Some(c)), acc)
            } else if is_comment_open(buf.push(c)) {
                spec_lex(s, k + 1, LexState::Comment(buf.push(c)), acc)
            } else {
                spec_lex(s, k + 1, LexState::Tag(buf.push(c), None), acc)
            },
            LexState::Comment(buf) => if is_comment_closed(buf.push(c)) {
                spec_lex(
                    s,
                    k + 1,
                    LexState::Text(Seq::empty()),
                    acc.push(SpecToken::Comment(buf.push(c).subrange(4, buf.len() + 1 - 3))),
                )
            } else {
                spec_lex(s, k + 1, LexState::Comment(buf.push(c)), acc)
            },
        }
    }
}

/// The token sequence of the whole input.
pub open spec fn spec_tokens(s: Seq<char>) -> Result<Seq<SpecToken>, HtmlError> {
    spec_lex(s, 0, LexState::Text(Seq::empty()), Seq::empty())
}

/// The lexer mode, carried beside the current buffer and quote state.
#[derive(Clone, Copy, PartialEq, Eq, Structural)]
pub(crate) enum LexMode {
    Text,
    Tag,
    Comment,
}

/// The model of the executable lexer state.
pub(crate) open spec fn lex_state_of(mode: LexMode, buf: Seq<char>, quote: Option<char>) -> LexState {
    match mode {
        LexMode::Text => LexState::Text(buf),
        LexMode::Tag => LexState::Tag(buf, quote),
        LexMode::Comment => LexState::Comment(buf),
    }
}

/// Whether the lexer result `r` carries out the model result `s`.
pub(crate) open spec fn tokens_res_matches(
    r: Result<Vec<Token>, HtmlError>,
    s: Result<Seq<SpecToken>, HtmlError>,
) -> bool {
    match s {
        Ok(ts) => r matches Ok(v) && tokens_view(v@) == ts,
        Err(e) => r matches Err(e2) && e2 == e,
    }
}

/// The token sequence of the input characters.
fn tokenize(s: &Vec<char>) -> (r: Result<Vec<Token>, HtmlError>)
    ensures
        tokens_res_matches(r, spec_tokens(s@)),
{
    let mut mode = LexMode::Text;
    let mut buf: Vec<char> = Vec::new();
    let mut quote: Option<char> = None;
    let mut toks: Vec<Token> = Vec::new();
    let mut k: usize = 0;
    proof {
        assert(tokens_view(toks@) =~= Seq::<SpecToken>::empty());
    }
    while k < s.len()
        invariant
            0 <= k <= s.len(),
            (mode is Tag ==> buf@.len() >= 1),
            (mode is Text ==> quote is None),
            (mode is Comment ==> quote is None),
            (spec_lex(s@, k as int, lex_state_of(mode, buf@, quote), tokens_view(toks@))
                == spec_tokens(s@)),
        decreases s.len() - k,
    {
        let c = s[k];
        let ghost old_acc = tokens_view(toks@);
        let ghost old_buf = buf@;
        match mode {
            LexMode::Text => {
                if c == '<' {
                    if buf.len() > 0 {
                        let text = chars_string(&buf, 0, buf.len());
                        proof {
                            assert(text@ =~= old_buf);
                        }
                        toks.push(Token::Text(text));
                        proof {
                            assert(tokens_view(toks@) =~= old_acc.push(
                                SpecToken::Text(old_buf),
                            ));
                        }
                    }
                    buf = Vec::new();
                    buf.push('<');
                    quote = None;
                    mode = LexMode::Tag;
                    proof {
                        assert(buf@ =~= seq!['<']);
                    }
                } else {
                    buf.push(c);
                }
            },
            LexMode::Tag => {
                match quote {
                    Some(q) => {
                        let prev = buf[buf.len() - 1];
                        buf.push(c);
                        if c == q && prev != '\\' {
                            quote = None;
                        }
                    },
                    None => {
                        if c == '>' {
                            buf.push('>');
                            match classify(&buf) {
                                Ok(tok) => {
                                    toks.push(tok);
                                    proof {
                                        assert(tokens_view(toks@) =~= old_acc.push(
                                            token_view(toks@.last()),
                                        ));
                                    }
                                },
                                Err(e) => {
                                    return Err(e);
                                },
                            }
                            buf = Vec::new();
                            mode = LexMode::Text;
                            proof {
                                assert(buf@ =~= Seq::<char>::empty());
                            }
                        } else if c == '"' || c == '\'' {
                            buf.push(c);
                            quote = Some(c);
                        } else {
                            buf.push(c);
                            if buf.len() == 4 && buf[0] == '<' && buf[1] == '!' && buf[2] == '-'
                                && buf[3] == '-' {
                                mode = LexMode::Comment;
                            }
                        }
                    },
                }
            },
            LexMode::Comment => {
                buf.push(c);
                let n = buf.len();
                if n >= 7 && buf[n - 3] == '-' && buf[n - 2] == '-' && buf[n - 1] == '>' {
                    let inner = chars_string(&buf, 4, n - 3);
                    toks.push(Token::Comment(inner));
                    proof {
                        assert(tokens_view(toks@) =~= old_acc.push(
                            SpecToken::Comment(old_buf.push(c).subrange(4, old_buf.len() + 1 - 3)),
                        ));
                    }
                    buf = Vec::new();
                    mode = LexMode::Text;
                    proof {
                        assert(buf@ =~= Seq::<char>::empty());
                    }
                }
            },
        }
        k = k + 1;
    }
    match mode {
        LexMode::Text => {
            if buf.len() > 0 {
                let ghost old_acc = tokens_view(toks@);
                let ghost old_buf = buf@;
                let text = chars_string(&buf, 0, buf.len());
                proof {
                    assert(text@ =~= old_buf);
                }
                toks.push(Token::Text(text));
                proof {
                    assert(tokens_view(toks@) =~= old_acc.push(SpecToken::Text(old_buf)));
                }
            }
            Ok(toks)
        },
        LexMode::Tag => Err(HtmlError::UnterminatedTag),
        LexMode::Comment => Err(HtmlError::UnterminatedComment),
    }
}

/// The forest built from the tokens `toks[lo..hi]`, one nesting level at a
/// time. An opening tag is paired with the rightmost closing tag of the
/// same name whose enclosed tokens themselves build (see
/// [`spec_find_end`]), and becomes childless when there is none; a closing
/// tag reached at the level itself has no open partner and fails; every
/// other token maps to its node directly. The buildable-enclosure condition
/// on the pairing is deliberate: an unconditionally rightmost pairing would
/// reject sibling tags of one name, while this form keeps the rightmost
/// reading where nesting of one name is unbalanced and falls back to the
/// nearest partner where siblings repeat a name.
pub open spec fn spec_build(toks: Seq<SpecToken>, lo: int, hi: int) -> Result<
    Seq<SpecNode>,
    HtmlError,
>
    decreases hi - lo, hi - lo + 1,
{
    if !(0 <= lo <= hi <= toks.len()) {
        Ok(Seq::empty())
    } else if lo == hi {
        Ok(Seq::empty())
    } else {
        match toks[lo] {
            SpecToken::Start(name, attrs) => match spec_find_end(toks, name, lo, hi, hi - 1) {
                Some(j) => if !(lo < j < hi) {
                    Ok(Seq::empty())
                } else {
                    match spec_build(toks, lo + 1, j) {
                    Ok(cs) => match spec_build(toks, j + 1, hi) {
                        Ok(rest) => Ok(
                            seq![SpecNode::Element { name, attrs, children: cs }] + rest,
                        ),
                        Err(e) => Err(e),
                    },
                    Err(e) => Err(e),
                    }
                },
                None => match spec_build(toks, lo + 1, hi) {
                    Ok(rest) => Ok(
                        seq![SpecNode::Element { name, attrs, children: Seq::empty() }] + rest,
                    ),
                    Err(e) => Err(e),
                },
            },
            SpecToken::End(_) => Err(HtmlError::UnexpectedEndTag),
            SpecToken::SelfClosing(name, attrs) => match spec_build(toks, lo + 1, hi) {
                Ok(rest) => Ok(
                    seq![SpecNode::Element { name, attrs, children: Seq::empty() }] + rest,
                ),
                Err(e) => Err(e),
            },
            SpecToken::Doctype => match spec_build(toks, lo + 1, hi) {
                Ok(rest) => Ok(seq![SpecNode::Doctype] + rest),
                Err(e) => Err(e),
            },
            SpecToken::Comment(t) => match spec_build(toks, lo + 1, hi) {
                Ok(rest) => Ok(seq![SpecNode::Comment(t)] + rest),
                Err(e) => Err(e),
            },
            SpecToken::Text(t) => match spec_build(toks, lo + 1, hi) {
                Ok(rest) => Ok(seq![SpecNode::Text(t)] + rest),
                Err(e) => Err(e),
            },
        }
    }
}

/// The index of the closing tag that pairs with the opening tag at `lo`:
/// the largest index in `(lo, j]` holding a closing tag named `name` whose
/// enclosed tokens `toks[lo+1 .. index]` build into a forest, or nothing.
pub open spec fn spec_find_end(
    toks: Seq<SpecToken>,
    name: Seq<char>,
    lo: int,
    hi: int,
    j: int,
) -> Option<int>
    decreases hi - lo, j - lo,
{
    if !(0 <= lo < j < hi && hi <= toks.len()) {
        None
    } else if (toks[j] matches SpecToken::End(n) && n == name && spec_build(toks, lo + 1, j)
        is Ok) {
        Some(j)
    } else {
        spec_find_end(toks, name, lo, hi, j - 1)
    }
}

/// The forest denoted by the whole input text.
pub open spec fn spec_parse(s: Seq<char>) -> Result<Seq<SpecNode>, HtmlError> {
    match spec_tokens(s) {
        Ok(ts) => spec_build(ts, 0, ts.len() as int),
        Err(e) => Err(e),
    }
}

/// Whether the builder result `r` carries out the model result `s`.
pub(crate) open spec fn nodes_res_matches(
    r: Result<Vec<Node>, HtmlError>,
    s: Result<Seq<SpecNode>, HtmlError>,
) -> bool {
    match s {
        Ok(ns) => r matches Ok(v) && nodes_view(v@) == ns,
        Err(e) => r matches Err(e2) && e2 == e,
    }
}

/// The closing tag pairing with the opening tag at `lo`, along with the
/// forest built from the tokens between them.
fn find_end(toks: &Vec<Token>, name: &String, lo: usize, hi: usize) -> (r: Option<
    (usize, Vec<Node>),
>)
    requires
        lo < hi <= toks@.len(),
    ensures
        (match spec_find_end(tokens_view(toks@), name@, lo as int, hi as int, hi - 1) {
            Some(j) => r matches Some(p) && p.0 == j && lo < p.0 < hi && (spec_build(
                tokens_view(toks@),
                lo + 1,
                j,
            ) matches Ok(cs) && nodes_view(p.1@) == cs),
            None => r is None,
        }),
    decreases hi - lo, 0int,
{
    let ghost tv = tokens_view(toks@);
    let mut jj: usize = hi - 1;
    while jj > lo
        invariant
            lo <= jj <= hi - 1,
            lo < hi <= toks@.len(),
            tv == tokens_view(toks@),
            tv.len() == toks@.len(),
            (spec_find_end(tv, name@, lo as int, hi as int, hi - 1) == spec_find_end(
                tv,
                name@,
                lo as int,
                hi as int,
                jj as int,
            )),
        decreases jj,
    {
        proof {
            assert(tv[jj as int] == token_view(toks@[jj as int]));
        }
        match &toks[jj] {
            Token::End(n) => {
                proof {
                    assert(tv[jj as int] == SpecToken::End(n@));
                }
                if *n == *name {
                    match build_nodes(toks, lo + 1, jj) {
                        Ok(cs) => {
                            proof {
                                assert(spec_find_end(tv, name@, lo as int, hi as int, jj as int)
                                    == Some(jj as int));
                            }
                            return Some((jj, cs));
                        },
                        Err(_) => {
                            proof {
                                assert(!(spec_build(tv, lo + 1, jj as int) is Ok));
                                assert(spec_find_end(tv, name@, lo as int, hi as int, jj as int)
                                    == spec_find_end(tv, name@, lo as int, hi as int, jj - 1));
                            }
                        },
                    }
                } else {
                    proof {
                        assert(spec_find_end(tv, name@, lo as int, hi as int, jj as int)
                            == spec_find_end(tv, name@, lo as int, hi as int, jj - 1));
                    }
                }
            },
            _ => {
                proof {
                    assert(!(tv[jj as int] is End));
                    assert(spec_find_end(tv, name@, lo as int, hi as int, jj as int)
                        == spec_find_end(tv, name@, lo as int, hi as int, jj - 1));
                }
            },
        }
        jj = jj - 1;
    }
    None
}

/// Appends one node, appending its model to the forest model.
fn push_node(out: &mut Vec<Node>, node: Node)
    ensures
        nodes_view(final(out)@) == nodes_view(old(out)@).push(node_view(node)),
{
    let ghost gnode = node;
    out.push(node);
    proof {
        crate::lemma_nodes_view_push(old(out)@, gnode);
    }
}

/// One scan step of the builder: when the head of the unbuilt range
/// `toks[i0..hi]` becomes the node `x` and the scan continues at `next`,
/// the built prefix grows by `x`.
proof fn lemma_build_step(
    tv: Seq<SpecToken>,
    lo: int,
    i0: int,
    next: int,
    hi: int,
    before: Seq<SpecNode>,
    x: SpecNode,
)
    requires
        (match spec_build(tv, i0, hi) {
            Ok(rest) => spec_build(tv, lo, hi) == Ok::<Seq<SpecNode>, HtmlError>(before + rest),
            Err(e) => spec_build(tv, lo, hi) == Err::<Seq<SpecNode>, HtmlError>(e),
        }),
        (match spec_build(tv, next, hi) {
            Ok(r2) => spec_build(tv, i0, hi) == Ok::<Seq<SpecNode>, HtmlError>(seq![x] + r2),
            Err(e) => spec_build(tv, i0, hi) == Err::<Seq<SpecNode>, HtmlError>(e),
        }),
    ensures
        (match spec_build(tv, next, hi) {
            Ok(rest) => spec_build(tv, lo, hi) == Ok::<Seq<SpecNode>, HtmlError>(
                before.push(x) + rest,
            ),
            Err(e) => spec_build(tv, lo, hi) == Err::<Seq<SpecNode>, HtmlError>(e),
        }),
{
    match spec_build(tv, next, hi) {
        Ok(rest) => {
            assert(before + (seq![x] + rest) =~= before.push(x) + rest);
        },
        Err(_) => {},
    }
}

/// The forest built from the tokens `toks[lo..hi]`.
fn build_nodes(toks: &Vec<Token>, lo: usize, hi: usize) -> (r: Result<Vec<Node>, HtmlError>)
    requires
        lo <= hi <= toks@.len(),
    ensures
        nodes_res_matches(r, spec_build(tokens_view(toks@), lo as int, hi as int)),
    decreases hi - lo, 1int,
{
    let ghost tv = tokens_view(toks@);
    let mut out: Vec<Node> = Vec::new();
    let mut i: usize = lo;
    proof {
        assert(nodes_view(out@) =~= Seq::<SpecNode>::empty());
    }
    while i < hi
        invariant
            lo <= i <= hi <= toks@.len(),
            tv == tokens_view(toks@),
            tv.len() == toks@.len(),
            (match spec_build(tv, i as int, hi as int) {
                Ok(rest) => spec_build(tv, lo as int, hi as int) == Ok::<
                    Seq<SpecNode>,
                    HtmlError,
                >(nodes_view(out@) + rest),
                Err(e) => spec_build(tv, lo as int, hi as int) == Err::<
                    Seq<SpecNode>,
                    HtmlError,
                >(e),
            }),
        decreases hi - i,
    {
        let ghost i0 = i as int;
        let ghost before = nodes_view(out@);
        proof {
            assert(tv[i0] == token_view(toks@[i0]));
        }
        match &toks[i] {
            Token::Start(name, attrs) => {
                match find_end(toks, name, i, hi) {
                    Some((j, cs)) => {
                        let node = Node::Element {
                            name: name.clone(),
                            attrs: crate::copy_attrs(attrs),
                            children: cs,
                        };
                        proof {
                            if let Node::Element { name: n2, attrs: a2, children: c2 } = &node {
                                lemma_node_view_element(*n2, *a2, *c2);
                            }
                            lemma_build_step(
                                tv,
                                lo as int,
                                i0,
                                j + 1,
                                hi as int,
                                before,
                                node_view(node),
                            );
                        }
                        push_node(&mut out, node);
                        i = j + 1;
                    },
                    None => {
                        let node = Node::Element {
                            name: name.clone(),
                            attrs: crate::copy_attrs(attrs),
                            children: Vec::new(),
                        };
                        proof {
                            if let Node::Element { name: n2, attrs: a2, children: c2 } = &node {
                                lemma_node_view_element(*n2, *a2, *c2);
                            }
                            assert(nodes_view(Seq::<Node>::empty()) =~= Seq::<SpecNode>::empty());
                            lemma_build_step(
                                tv,
                                lo as int,
                                i0,
                                i0 + 1,
                                hi as int,
                                before,
                                node_view(node),
                            );
                        }
                        push_node(&mut out, node);
                        i = i + 1;
                    },
                }
            },
            Token::End(_) => {
                return Err(HtmlError::UnexpectedEndTag);
            },
            Token::SelfClosing(name, attrs) => {
                let node = Node::Element {
                    name: name.clone(),
                    attrs: crate::copy_attrs(attrs),
                    children: Vec::new(),
                };
                proof {
                    if let Node::Element { name: n2, attrs: a2, children: c2 } = &node {
                        lemma_node_view_element(*n2, *a2, *c2);
                    }
                    assert(nodes_view(Seq::<Node>::empty()) =~= Seq::<SpecNode>::empty());
                    lemma_build_step(tv, lo as int, i0, i0 + 1, hi as int, before, node_view(node));
                }
                push_node(&mut out, node);
                i = i + 1;
            },
            Token::Doctype => {
                proof {
                    lemma_build_step(tv, lo as int, i0, i0 + 1, hi as int, before, SpecNode::Doctype);
                }
                push_node(&mut out, Node::Doctype);
                i = i + 1;
            },
            Token::Comment(t) => {
                proof {
                    lemma_build_step(
                        tv,
                        lo as int,
                        i0,
                        i0 + 1,
                        hi as int,
                        before,
                        SpecNode::Comment(t@),
                    );
                }
                push_node(&mut out, Node::Comment(t.clone()));
                i = i + 1;
            },
            Token::Text(t) => {
                proof {
                    lemma_build_step(
                        tv,
                        lo as int,
                        i0,
                        i0 + 1,
                        hi as int,
                        before,
                        SpecNode::Text(t@),
                    );
                }
                push_node(&mut out, Node::Text(t.clone()));
                i = i + 1;
            },
        }
    }
    proof {
        assert(nodes_view(out@) + Seq::<SpecNode>::empty() =~= nodes_view(out@));
    }
    Ok(out)
}

/// Parse the markup into a forest of nodes; a structural failure aborts
/// the whole call with a typed error and no partial forest.
pub fn parse(html: &str) -> (r: Result<Vec<Node>, HtmlError>)
    ensures
        (match spec_parse(html@) {
            Ok(ns) => r matches Ok(v) && nodes_view(v@) == ns,
            Err(e) => r matches Err(e2) && e2 == e,
        }),
{
    let cs = str_chars(html);
    match tokenize(&cs) {
        Ok(toks) => build_nodes(&toks, 0, toks.len()),
        Err(e) => Err(e),
    }
}


/// Lexing a text run: characters up to the next `<` at `q` (or the end of
/// the input) accumulate; the run then flushes as one text token when any
/// characters were gathered, and a `<` opens a tag buffer.
proof fn lemma_lex_text_run(s: Seq<char>, p: int, q: int, buf: Seq<char>, acc: Seq<SpecToken>)
    requires
        0 <= p <= q <= s.len(),
        forall|i: int| p <= i < q ==> s[i] != '<',
        q < s.len() ==> s[q] == '<',
    ensures
        (spec_lex(s, p, LexState::Text(buf), acc) == {
            let flushed = if buf.len() + q - p == 0 {
                acc
            } else {
                acc.push(SpecToken::Text(buf + s.subrange(p, q)))
            };
            if q == s.len() {
                Ok::<Seq<SpecToken>, HtmlError>(flushed)
            } else {
                spec_lex(s, q + 1, LexState::Tag(seq!['<'], None), flushed)
            }
        }),
    decreases q - p,
{
    if p == q {
        assert(buf + s.subrange(p, q) =~= buf);
    } else {
        lemma_lex_text_run(s, p + 1, q, buf.push(s[p]), acc);
        assert(buf.push(s[p]) + s.subrange(p + 1, q) =~= buf + s.subrange(p, q));
    }
}

/// Parsing text that holds no `<` yields one text node, or nothing for the
/// empty input.
pub proof fn lemma_parse_text_free(s: Seq<char>)
    requires
        forall|i: int| 0 <= i < s.len() ==> s[i] != '<',
    ensures
        (spec_parse(s) == Ok::<Seq<SpecNode>, HtmlError>(
            if s.len() == 0 {
                Seq::empty()
            } else {
                seq![SpecNode::Text(s)]
            },
        )),
{
    lemma_lex_text_run(s, 0, s.len() as int, Seq::empty(), Seq::empty());
    if s.len() == 0 {
        reveal_with_fuel(spec_build, 1);
    } else {
        assert(Seq::<char>::empty() + s.subrange(0, s.len() as int) =~= s);
        let toks = Seq::<SpecToken>::empty().push(SpecToken::Text(s));
        assert(spec_tokens(s) == Ok::<Seq<SpecToken>, HtmlError>(toks));
        reveal_with_fuel(spec_build, 2);
        assert(spec_build(toks, 1, 1) == Ok::<Seq<SpecNode>, HtmlError>(Seq::empty()));
        assert(seq![SpecNode::Text(s)] + Seq::<SpecNode>::empty() =~= seq![SpecNode::Text(s)]);
    }
}



/// Whether `t` holds the comment closer `-->` nowhere.
pub open spec fn no_comment_close(t: Seq<char>) -> bool {
    forall|i: int|
        0 <= i && i + 3 <= t.len() ==> !(#[trigger] t[i] == '-' && t[i + 1] == '-' && t[i + 2]
            == '>')
}

/// Lexing a comment whose content holds no `-->` runs to its closer and
/// yields one comment token, lexing then going on in text mode.
proof fn lemma_lex_comment_scan(
    s: Seq<char>,
    t: Seq<char>,
    c0: int,
    p: int,
    acc: Seq<SpecToken>,
)
    requires
        no_comment_close(t),
        0 <= c0,
        c0 + t.len() + 7 <= s.len(),
        (s.subrange(c0, c0 + t.len() + 7) == seq!['<', '!', '-', '-'] + t + seq![
            '-',
            '-',
            '>',
        ]),
        c0 + 4 <= p < c0 + t.len() + 7,
    ensures
        (spec_lex(s, p, LexState::Comment(s.subrange(c0, p)), acc) == spec_lex(
            s,
            c0 + t.len() + 7,
            LexState::Text(Seq::empty()),
            acc.push(SpecToken::Comment(t)),
        )),
    decreases c0 + t.len() + 7 - p,
{
    let e3 = c0 + t.len() as int + 7;
    let body = seq!['<', '!', '-', '-'] + t + seq!['-', '-', '>'];
    assert(forall|i: int| c0 <= i < e3 ==> #[trigger] s[i] == body[i - c0]) by {
        assert(forall|i: int|
            0 <= i < body.len() ==> s.subrange(c0, e3)[i] == body[i]);
    }
    let c = s[p];
    let buf2 = s.subrange(c0, p).push(c);
    assert(buf2 =~= s.subrange(c0, p + 1));
    if p + 1 == e3 {
        assert(is_comment_closed(buf2));
        assert(buf2.subrange(4, buf2.len() - 3) =~= t);
        assert(spec_lex(s, p, LexState::Comment(s.subrange(c0, p)), acc) == spec_lex(
            s,
            e3,
            LexState::Text(Seq::empty()),
            acc.push(SpecToken::Comment(t)),
        ));
    } else {
        assert(!is_comment_closed(buf2)) by {
            if buf2.len() >= 7 {
                let w = p + 1 - c0;
                if w <= 4 + t.len() {
                    assert(s[p + 1 - 3] == t[w - 7] && s[p + 1 - 2] == t[w - 6] && s[p + 1 - 1]
                        == t[w - 5]);
                } else if w == 5 + t.len() {
                    assert(s[p] == '-');
                } else {
                    assert(w == 6 + t.len());
                    assert(s[p] == '-');
                }
            }
        }
        lemma_lex_comment_scan(s, t, c0, p + 1, acc);
        assert(spec_lex(s, p, LexState::Comment(s.subrange(c0, p)), acc) == spec_lex(
            s,
            p + 1,
            LexState::Comment(s.subrange(c0, p + 1)),
            acc,
        ));
    }
}

/// Parsing `<!--`, a content without `-->`, then `-->` yields one comment
/// node carrying the content.
pub proof fn lemma_parse_comment(t: Seq<char>)
    requires
        no_comment_close(t),
    ensures
        (spec_parse(seq!['<', '!', '-', '-'] + t + seq!['-', '-', '>']) == Ok::<
            Seq<SpecNode>,
            HtmlError,
        >(seq![SpecNode::Comment(t)])),
{
    let s = seq!['<', '!', '-', '-'] + t + seq!['-', '-', '>'];
    assert(s[0] == '<' && s[1] == '!' && s[2] == '-' && s[3] == '-');
    assert(spec_lex(s, 0, LexState::Text(Seq::empty()), Seq::empty()) == spec_lex(
        s,
        1,
        LexState::Tag(seq!['<'], None),
        Seq::empty(),
    ));
    assert(seq!['<'].push('!') =~= seq!['<', '!']);
    assert(seq!['<', '!'].push('-') =~= seq!['<', '!', '-']);
    assert(seq!['<', '!', '-'].push('-') =~= seq!['<', '!', '-', '-']);
    assert(spec_lex(s, 1, LexState::Tag(seq!['<'], None), Seq::empty()) == spec_lex(
        s,
        2,
        LexState::Tag(seq!['<', '!'], None),
        Seq::empty(),
    ));
    assert(spec_lex(s, 2, LexState::Tag(seq!['<', '!'], None), Seq::empty()) == spec_lex(
        s,
        3,
        LexState::Tag(seq!['<', '!', '-'], None),
        Seq::empty(),
    ));
    assert(is_comment_open(seq!['<', '!', '-', '-']));
    assert(spec_lex(s, 3, LexState::Tag(seq!['<', '!', '-'], None), Seq::empty()) == spec_lex(
        s,
        4,
        LexState::Comment(seq!['<', '!', '-', '-']),
        Seq::empty(),
    ));
    assert(s.take(4) =~= seq!['<', '!', '-', '-']);
    assert(s.subrange(0, 4) =~= seq!['<', '!', '-', '-']);
    assert(s.subrange(0, s.len() as int) =~= s);
    lemma_lex_comment_scan(s, t, 0, 4, Seq::empty());
    let toks = Seq::<SpecToken>::empty().push(SpecToken::Comment(t));
    assert(spec_lex(s, s.len() as int, LexState::Text(Seq::empty()), toks) == Ok::<
        Seq<SpecToken>,
        HtmlError,
    >(toks));
    assert(spec_tokens(s) == Ok::<Seq<SpecToken>, HtmlError>(toks));
    reveal_with_fuel(spec_build, 2);
    assert(spec_build(toks, 1, 1) == Ok::<Seq<SpecNode>, HtmlError>(Seq::empty()));
    assert(seq![SpecNode::Comment(t)] + Seq::<SpecNode>::empty() =~= seq![
        SpecNode::Comment(t),
    ]);
}



/// Lexing a tag run: once a tag buffer holding `s[b..p]` is open,
/// characters that are not `>`, a quote, or a comment opener accumulate
/// until the `>` at `e - 1` closes the tag through the classifier, after
/// which lexing continues in text mode.
proof fn lemma_lex_tag_scan(s: Seq<char>, b: int, p: int, e: int, acc: Seq<SpecToken>)
    requires
        0 <= b < p <= e - 1,
        e <= s.len(),
        s[e - 1] == '>',
        forall|i: int| p <= i < e - 1 ==> s[i] != '>' && s[i] != '"' && s[i] != '\'',
        forall|i: int| p <= i <= e ==> !is_comment_open(#[trigger] s.subrange(b, i)),
    ensures
        (spec_lex(s, p, LexState::Tag(s.subrange(b, p), None), acc) == match spec_classify(
            s.subrange(b, e),
        ) {
            Ok(tok) => spec_lex(s, e, LexState::Text(Seq::empty()), acc.push(tok)),
            Err(er) => Err::<Seq<SpecToken>, HtmlError>(er),
        }),
    decreases e - p,
{
    let c = s[p];
    if p == e - 1 {
        assert(s.subrange(b, p).push('>') =~= s.subrange(b, e));
    } else {
        assert(s.subrange(b, p).push(c) =~= s.subrange(b, p + 1));
        lemma_lex_tag_scan(s, b, p + 1, e, acc);
    }
}



/// A plain tag name: non-empty, free of whitespace, quotes and `>`, not
/// opening with `!` or `/` and not closing with `/`, so that `<name>` and
/// `</name>` are read back as exactly this name.
pub open spec fn plain_tag_name(name: Seq<char>) -> bool {
    &&& name.len() > 0
    &&& name[0] != '!'
    &&& name[0] != '/'
    &&& name[name.len() - 1] != '/'
    &&& forall|i: int|
        0 <= i < name.len() ==> !is_space(#[trigger] name[i]) && name[i] != '>' && name[i] != '"'
            && name[i] != '\''
}

/// A whitespace-free run ends only at the end of the text.
proof fn lemma_name_end_nospace(s: Seq<char>, k: int)
    requires
        0 <= k <= s.len(),
        forall|i: int| k <= i < s.len() ==> !is_space(#[trigger] s[i]),
    ensures
        spec_name_end(s, k) == s.len(),
    decreases s.len() - k,
{
    if k < s.len() {
        lemma_name_end_nospace(s, k + 1);
    }
}

/// The empty attribute text denotes the empty attribute map.
proof fn lemma_parse_attrs_empty()
    ensures
        (spec_parse_attrs(Seq::empty()) == Ok::<Seq<(Seq<char>, Seq<char>)>, HtmlError>(
            Seq::empty(),
        )),
{
}

/// A plain name with nothing after it splits into itself and the empty
/// attribute text.
proof fn lemma_split_plain(name: Seq<char>)
    requires
        plain_tag_name(name),
    ensures
        spec_split_tag(name) == (name, Seq::<char>::empty()),
{
    lemma_name_end_nospace(name, 0);
    assert(name.subrange(0, name.len() as int) =~= name);
    assert(name.subrange(name.len() as int, name.len() as int) =~= Seq::<char>::empty());
    assert(spec_trim_text(Seq::empty()) =~= Seq::<char>::empty());
}

/// `<name>` classifies as an opening tag with no attributes.
proof fn lemma_classify_start_plain(name: Seq<char>)
    requires
        plain_tag_name(name),
    ensures
        (spec_classify(seq!['<'] + name + seq!['>']) == Ok::<SpecToken, HtmlError>(
            SpecToken::Start(name, Seq::empty()),
        )),
{
    let t = seq!['<'] + name + seq!['>'];
    assert(t[t.len() - 2] == name[name.len() - 1]);
    assert(t[1] == name[0]);
    assert(t.subrange(1, t.len() - 1) =~= name);
    lemma_split_plain(name);
    lemma_parse_attrs_empty();
}

/// `</name>` classifies as a closing tag.
proof fn lemma_classify_end_plain(name: Seq<char>)
    requires
        plain_tag_name(name),
    ensures
        (spec_classify(seq!['<', '/'] + name + seq!['>']) == Ok::<SpecToken, HtmlError>(
            SpecToken::End(name),
        )),
{
    let t = seq!['<', '/'] + name + seq!['>'];
    assert(t[t.len() - 2] == name[name.len() - 1]);
    assert(t[0] == '<' && t[1] == '/');
    assert(t.subrange(2, t.len() - 1) =~= name);
    lemma_split_plain(name);
}





/// A value without quotes escapes to itself.
proof fn lemma_escape_id_from(v: Seq<char>, p: int)
    requires
        0 <= p <= v.len(),
        forall|i: int| 0 <= i < v.len() ==> #[trigger] v[i] != '"' && v[i] != '\'',
    ensures
        crate::html::spec_escape_from(v, p) == v.subrange(p, v.len() as int),
    decreases v.len() - p,
{
    if p == v.len() {
        assert(v.subrange(p, v.len() as int) =~= Seq::<char>::empty());
    } else {
        lemma_escape_id_from(v, p + 1);
        assert(seq![v[p]] + v.subrange(p + 1, v.len() as int) =~= v.subrange(p, v.len() as int));
    }
}

/// Tag characters that are not `>`, a quote, or a comment opener simply
/// accumulate, moving the scan from `p` to `r`.
proof fn lemma_lex_tag_plain_run(s: Seq<char>, b: int, p: int, r: int, acc: Seq<SpecToken>)
    requires
        0 <= b < p <= r <= s.len(),
        forall|i: int| p <= i < r ==> s[i] != '>' && s[i] != '"' && s[i] != '\'',
        forall|i: int| p <= i <= r ==> !is_comment_open(#[trigger] s.subrange(b, i)),
    ensures
        (spec_lex(s, p, LexState::Tag(s.subrange(b, p), None), acc) == spec_lex(
            s,
            r,
            LexState::Tag(s.subrange(b, r), None),
            acc,
        )),
    decreases r - p,
{
    if p < r {
        assert(s.subrange(b, p).push(s[p]) =~= s.subrange(b, p + 1));
        lemma_lex_tag_plain_run(s, b, p + 1, r, acc);
    }
}

/// A quoted stretch free of quotes accumulates verbatim and the matching
/// quote at `e2`, not preceded by a backslash, closes it.
proof fn lemma_lex_quote_run(s: Seq<char>, b: int, p: int, e2: int, acc: Seq<SpecToken>)
    requires
        0 <= b < p <= e2 < s.len(),
        s[e2] == '"',
        s[e2 - 1] != '\\',
        forall|i: int| p <= i < e2 ==> s[i] != '"',
    ensures
        (spec_lex(s, p, LexState::Tag(s.subrange(b, p), Some('"')), acc) == spec_lex(
            s,
            e2 + 1,
            LexState::Tag(s.subrange(b, e2 + 1), None),
            acc,
        )),
    decreases e2 - p,
{
    assert(s.subrange(b, p).push(s[p]) =~= s.subrange(b, p + 1));
    if p == e2 {
        assert(s.subrange(b, p)[p - 1 - b] == s[p - 1]);
    } else {
        lemma_lex_quote_run(s, b, p + 1, e2, acc);
    }
}

/// Attribute key characters accumulate until `=` or a space.
proof fn lemma_attr_key_run(
    s: Seq<char>,
    p: int,
    r: int,
    buf: Seq<char>,
    keys: Seq<Seq<char>>,
    vals: Seq<Seq<char>>,
)
    requires
        0 <= p <= r <= s.len(),
        forall|i: int| p <= i < r ==> #[trigger] s[i] != '=' && !is_space(s[i]),
    ensures
        (spec_attr_scan(s, p, AttrState::Key, buf, keys, vals) == spec_attr_scan(
            s,
            r,
            AttrState::Key,
            buf + s.subrange(p, r),
            keys,
            vals,
        )),
    decreases r - p,
{
    if p == r {
        assert(buf + s.subrange(p, r) =~= buf);
    } else {
        lemma_attr_key_run(s, p + 1, r, buf.push(s[p]), keys, vals);
        assert(buf.push(s[p]) + s.subrange(p + 1, r) =~= buf + s.subrange(p, r));
    }
}

/// Quoted attribute value characters accumulate until the matching quote.
proof fn lemma_attr_value_run(
    s: Seq<char>,
    p: int,
    r: int,
    buf: Seq<char>,
    keys: Seq<Seq<char>>,
    vals: Seq<Seq<char>>,
)
    requires
        0 <= p <= r <= s.len(),
        forall|i: int| p <= i < r ==> #[trigger] s[i] != '"',
    ensures
        (spec_attr_scan(s, p, AttrState::ValueQ('"'), buf, keys, vals) == spec_attr_scan(
            s,
            r,
            AttrState::ValueQ('"'),
            buf + s.subrange(p, r),
            keys,
            vals,
        )),
    decreases r - p,
{
    if p == r {
        assert(buf + s.subrange(p, r) =~= buf);
    } else {
        lemma_attr_value_run(s, p + 1, r, buf.push(s[p]), keys, vals);
        assert(buf.push(s[p]) + s.subrange(p + 1, r) =~= buf + s.subrange(p, r));
    }
}

/// A whitespace-free run ends where the following whitespace begins.
proof fn lemma_name_end_to_space(s: Seq<char>, k: int, m: int)
    requires
        0 <= k <= m < s.len(),
        forall|i: int| k <= i < m ==> !is_space(#[trigger] s[i]),
        is_space(s[m]),
    ensures
        spec_name_end(s, k) == m,
    decreases m - k,
{
    if k < m {
        lemma_name_end_to_space(s, k + 1, m);
    }
}

/// A plain attribute binding: a non-empty key free of `=`, whitespace,
/// quotes and `>`, and a value free of quotes and backslashes, so that the
/// serialized pair ` key="value"` is read back unchanged.
pub open spec fn plain_attr(key: Seq<char>, val: Seq<char>) -> bool {
    &&& key.len() > 0
    &&& forall|i: int|
        0 <= i < key.len() ==> #[trigger] key[i] != '=' && !is_space(key[i]) && key[i] != '"'
            && key[i] != '\'' && key[i] != '>'
    &&& forall|i: int|
        0 <= i < val.len() ==> #[trigger] val[i] != '"' && val[i] != '\'' && val[i] != '\\'
}






/// The token sequence that denotes one node model: an element opens with
/// its start token, carries its children's tokens, and closes with its end
/// token; the other node kinds are single tokens.
pub open spec fn spec_tokens_of_node(n: SpecNode) -> Seq<SpecToken>
    decreases n, 0int,
{
    match n {
        SpecNode::Element { name, attrs, children } => seq![SpecToken::Start(name, attrs)]
            + spec_tokens_of_nodes(children, 0) + seq![SpecToken::End(name)],
        SpecNode::Text(t) => seq![SpecToken::Text(t)],
        SpecNode::Comment(t) => seq![SpecToken::Comment(t)],
        SpecNode::Doctype => seq![SpecToken::Doctype],
    }
}

/// The token sequences of the node models from index `k` on, concatenated.
pub open spec fn spec_tokens_of_nodes(ns: Seq<SpecNode>, k: int) -> Seq<SpecToken>
    decreases ns, ns.len() - k,
{
    if !(0 <= k < ns.len()) {
        Seq::empty()
    } else {
        spec_tokens_of_node(ns[k]) + spec_tokens_of_nodes(ns, k + 1)
    }
}

/// Searching for the partner of the opening tag at `lo` from `j` downward
/// finds exactly the tag's own closing token at `e`: every farther closing
/// token of the same name fails the buildable-enclosure test, because the
/// tokens after `e` would leave that closing token stray at the top level.
proof fn lemma_find_true_end(
    toks: Seq<SpecToken>,
    name: Seq<char>,
    lo: int,
    hi: int,
    j: int,
    cs: Seq<SpecNode>,
)
    requires
        0 <= lo,
        hi <= toks.len(),
        toks.subrange(lo + 1, lo + 1 + spec_tokens_of_nodes(cs, 0).len()) == spec_tokens_of_nodes(
            cs,
            0,
        ),
        toks[lo + 1 + spec_tokens_of_nodes(cs, 0).len()] == SpecToken::End(name),
        lo + 1 + spec_tokens_of_nodes(cs, 0).len() <= j < hi,
    ensures
        (spec_find_end(toks, name, lo, hi, j) == Some(
            lo + 1 + spec_tokens_of_nodes(cs, 0).len(),
        )),
    decreases hi - lo, j,
{
    let e = lo + 1 + spec_tokens_of_nodes(cs, 0).len();
    if j == e {
        lemma_build_inverts_from(toks, lo + 1, e, cs, 0);
        assert(spec_find_end(toks, name, lo, hi, j) == Some(e));
    } else {
        match toks[j] {
            SpecToken::End(n2) => {
                if n2 == name {
                    lemma_build_stray_end(toks, lo + 1, e, j, cs, 0);
                    assert(!(spec_build(toks, lo + 1, j) is Ok));
                }
            },
            _ => {},
        }
        lemma_find_true_end(toks, name, lo, hi, j - 1, cs);
        assert(spec_find_end(toks, name, lo, hi, j) == spec_find_end(toks, name, lo, hi, j - 1));
    }
}

/// Building a token range that is exactly the token sequence of the models
/// from index `k` on yields those models.
proof fn lemma_build_inverts_from(toks: Seq<SpecToken>, lo: int, hi: int, ns: Seq<SpecNode>, k: int)
    requires
        0 <= lo <= hi <= toks.len(),
        0 <= k <= ns.len(),
        toks.subrange(lo, hi) == spec_tokens_of_nodes(ns, k),
    ensures
        (spec_build(toks, lo, hi) == Ok::<Seq<SpecNode>, HtmlError>(
            ns.subrange(k, ns.len() as int),
        )),
    decreases hi - lo, hi,
{
    if k == ns.len() {
        assert(hi - lo == 0);
        assert(ns.subrange(k, ns.len() as int) =~= Seq::<SpecNode>::empty());
    } else {
        let head = spec_tokens_of_node(ns[k]);
        let rest = spec_tokens_of_nodes(ns, k + 1);
        assert(toks.subrange(lo, hi) == head + rest);
        assert(hi - lo == head.len() + rest.len());
        assert(forall|i: int|
            lo <= i < hi ==> #[trigger] toks[i] == (head + rest)[i - lo]);
        match ns[k] {
            SpecNode::Element { name, attrs, children } => {
                let cn = spec_tokens_of_nodes(children, 0).len();
                let e = lo + 1 + cn;
                let m = e + 1;
                assert(head == seq![SpecToken::Start(name, attrs)] + spec_tokens_of_nodes(
                    children,
                    0,
                ) + seq![SpecToken::End(name)]);
                assert(head.len() == cn + 2);
                assert(toks[lo] == SpecToken::Start(name, attrs));
                assert(toks[e] == SpecToken::End(name));
                assert(toks.subrange(lo + 1, e) =~= spec_tokens_of_nodes(children, 0));
                assert(toks.subrange(m, hi) =~= rest);
                lemma_find_true_end(toks, name, lo, hi, hi - 1, children);
                lemma_build_inverts_from(toks, lo + 1, e, children, 0);
                assert(children.subrange(0, children.len() as int) =~= children);
                lemma_build_inverts_from(toks, m, hi, ns, k + 1);
                assert(seq![ns[k]] + ns.subrange(k + 1, ns.len() as int) =~= ns.subrange(
                    k,
                    ns.len() as int,
                ));
            },
            SpecNode::Text(t) => {
                assert(toks[lo] == SpecToken::Text(t));
                assert(toks.subrange(lo + 1, hi) =~= rest);
                lemma_build_inverts_from(toks, lo + 1, hi, ns, k + 1);
                assert(seq![ns[k]] + ns.subrange(k + 1, ns.len() as int) =~= ns.subrange(
                    k,
                    ns.len() as int,
                ));
            },
            SpecNode::Comment(t) => {
                assert(toks[lo] == SpecToken::Comment(t));
                assert(toks.subrange(lo + 1, hi) =~= rest);
                lemma_build_inverts_from(toks, lo + 1, hi, ns, k + 1);
                assert(seq![ns[k]] + ns.subrange(k + 1, ns.len() as int) =~= ns.subrange(
                    k,
                    ns.len() as int,
                ));
            },
            SpecNode::Doctype => {
                assert(toks[lo] == SpecToken::Doctype);
                assert(toks.subrange(lo + 1, hi) =~= rest);
                lemma_build_inverts_from(toks, lo + 1, hi, ns, k + 1);
                assert(seq![ns[k]] + ns.subrange(k + 1, ns.len() as int) =~= ns.subrange(
                    k,
                    ns.len() as int,
                ));
            },
        }
    }
}

/// Building a range that starts with the token sequence of the models from
/// index `k` on and continues with a closing token fails: the closing token
/// is reached stray at the top of the level.
proof fn lemma_build_stray_end(
    toks: Seq<SpecToken>,
    lo: int,
    m: int,
    hi: int,
    ns: Seq<SpecNode>,
    k: int,
)
    requires
        0 <= lo <= m < hi <= toks.len(),
        0 <= k <= ns.len(),
        toks.subrange(lo, m) == spec_tokens_of_nodes(ns, k),
        toks[m] is End,
    ensures
        spec_build(toks, lo, hi) is Err,
    decreases hi - lo, hi,
{
    if k == ns.len() {
        assert(m == lo);
    } else {
        let head = spec_tokens_of_node(ns[k]);
        let rest = spec_tokens_of_nodes(ns, k + 1);
        assert(toks.subrange(lo, m) == head + rest);
        assert(m - lo == head.len() + rest.len());
        assert(forall|i: int|
            lo <= i < m ==> #[trigger] toks[i] == (head + rest)[i - lo]);
        match ns[k] {
            SpecNode::Element { name, attrs, children } => {
                let cn = spec_tokens_of_nodes(children, 0).len();
                let e = lo + 1 + cn;
                let m2 = e + 1;
                assert(head == seq![SpecToken::Start(name, attrs)] + spec_tokens_of_nodes(
                    children,
                    0,
                ) + seq![SpecToken::End(name)]);
                assert(head.len() == cn + 2);
                assert(toks[lo] == SpecToken::Start(name, attrs));
                assert(toks[e] == SpecToken::End(name));
                assert(toks.subrange(lo + 1, e) =~= spec_tokens_of_nodes(children, 0));
                assert(toks.subrange(m2, m) =~= rest);
                lemma_find_true_end(toks, name, lo, hi, hi - 1, children);
                lemma_build_inverts_from(toks, lo + 1, e, children, 0);
                lemma_build_stray_end(toks, m2, m, hi, ns, k + 1);
            },
            SpecNode::Text(t) => {
                assert(toks[lo] == SpecToken::Text(t));
                assert(toks.subrange(lo + 1, m) =~= rest);
                lemma_build_stray_end(toks, lo + 1, m, hi, ns, k + 1);
            },
            SpecNode::Comment(t) => {
                assert(toks[lo] == SpecToken::Comment(t));
                assert(toks.subrange(lo + 1, m) =~= rest);
                lemma_build_stray_end(toks, lo + 1, m, hi, ns, k + 1);
            },
            SpecNode::Doctype => {
                assert(toks[lo] == SpecToken::Doctype);
                assert(toks.subrange(lo + 1, m) =~= rest);
                lemma_build_stray_end(toks, lo + 1, m, hi, ns, k + 1);
            },
        }
    }
}

/// The tree builder inverts tokenization: building the token sequence of
/// any forest yields the forest back, whatever the tag names. In
/// particular the rightmost-with-buildable-enclosure pairing selects each
/// opening tag's own closing tag at every depth.
pub proof fn lemma_build_inverts(ns: Seq<SpecNode>)
    ensures
        (spec_build(
            spec_tokens_of_nodes(ns, 0),
            0,
            spec_tokens_of_nodes(ns, 0).len() as int,
        ) == Ok::<Seq<SpecNode>, HtmlError>(ns)),
{
    let toks = spec_tokens_of_nodes(ns, 0);
    assert(toks.subrange(0, toks.len() as int) =~= toks);
    lemma_build_inverts_from(toks, 0, toks.len() as int, ns, 0);
    assert(ns.subrange(0, ns.len() as int) =~= ns);
}


/// The keys of an attribute pair sequence, in order.
pub open spec fn spec_keys_of(attrs: Seq<(Seq<char>, Seq<char>)>) -> Seq<Seq<char>> {
    Seq::new(attrs.len(), |i: int| attrs[i].0)
}

/// The values of an attribute pair sequence, in order.
pub open spec fn spec_vals_of(attrs: Seq<(Seq<char>, Seq<char>)>) -> Seq<Seq<char>> {
    Seq::new(attrs.len(), |i: int| attrs[i].1)
}

/// Whether the keys of an attribute pair sequence are pairwise distinct.
pub open spec fn distinct_keys(attrs: Seq<(Seq<char>, Seq<char>)>) -> bool {
    forall|a: int, b: int|
        0 <= a < b < attrs.len() ==> #[trigger] attrs[a].0 != #[trigger] attrs[b].0
}

/// A key held by no pair of the map is not found.
proof fn lemma_key_index_absent(m: Seq<(Seq<char>, Seq<char>)>, key: Seq<char>, j: int)
    requires
        0 <= j <= m.len(),
        forall|i: int| j <= i < m.len() ==> #[trigger] m[i].0 != key,
    ensures
        spec_key_index(m, key, j) is None,
    decreases m.len() - j,
{
    if j < m.len() {
        lemma_key_index_absent(m, key, j + 1);
    }
}

/// Binding key/value lists with pairwise distinct keys in order rebuilds
/// exactly the pair sequence they came from.
proof fn lemma_assoc_from_distinct(attrs: Seq<(Seq<char>, Seq<char>)>, j: int)
    requires
        0 <= j <= attrs.len(),
        distinct_keys(attrs),
    ensures
        (spec_assoc_from(
            spec_keys_of(attrs),
            spec_vals_of(attrs),
            j,
            attrs.subrange(0, j),
        ) == attrs),
    decreases attrs.len() - j,
{
    let acc = attrs.subrange(0, j);
    if j == attrs.len() {
        assert(acc =~= attrs);
    } else {
        assert(forall|i: int| 0 <= i < j ==> #[trigger] acc[i].0 != attrs[j].0);
        lemma_key_index_absent(acc, attrs[j].0, 0);
        assert(spec_assoc_put(acc, spec_keys_of(attrs)[j], spec_vals_of(attrs)[j]) =~= attrs.subrange(
            0,
            j + 1,
        ));
        lemma_assoc_from_distinct(attrs, j + 1);
    }
}


/// The raw serialized attribute pairs from index `j` on, values unescaped:
/// `key="value"`, later pairs each preceded by one space.
pub open spec fn spec_attrs_raw(attrs: Seq<(Seq<char>, Seq<char>)>, j: int) -> Seq<char>
    decreases attrs.len() - j, 0int,
{
    if !(0 <= j < attrs.len()) {
        Seq::empty()
    } else {
        attrs[j].0 + seq!['=', '"'] + attrs[j].1 + seq!['"'] + spec_attrs_raw_sp(attrs, j + 1)
    }
}

/// The raw serialized attribute pairs from index `j` on, each preceded by
/// one space.
pub open spec fn spec_attrs_raw_sp(attrs: Seq<(Seq<char>, Seq<char>)>, j: int) -> Seq<char>
    decreases attrs.len() - j, 1int,
{
    if !(0 <= j < attrs.len()) {
        Seq::empty()
    } else {
        seq![' '] + spec_attrs_raw(attrs, j)
    }
}

/// Whether every pair from index `j` on is a plain binding.
pub open spec fn plain_attrs(attrs: Seq<(Seq<char>, Seq<char>)>) -> bool {
    forall|i: int| 0 <= i < attrs.len() ==> plain_attr(#[trigger] attrs[i].0, attrs[i].1)
}

/// For plain pairs the serialized attribute text is the raw text: escaping
/// rewrites nothing.
proof fn lemma_attrs_html_raw(attrs: Seq<(Seq<char>, Seq<char>)>, j: int)
    requires
        plain_attrs(attrs),
        0 <= j,
    ensures
        crate::html::spec_attrs_html(attrs, j) == spec_attrs_raw_sp(attrs, j),
    decreases attrs.len() - j,
{
    reveal_strlit(" ");
    reveal_strlit("=\"");
    reveal_strlit("\"");
    assert((" ")@ =~= seq![' ']);
    assert(("=\"")@ =~= seq!['=', '"']);
    assert(("\"")@ =~= seq!['"']);
    if j < attrs.len() {
        assert(plain_attr(attrs[j].0, attrs[j].1));
        lemma_escape_id_from(attrs[j].1, 0);
        assert(crate::html::spec_escape(attrs[j].1) =~= attrs[j].1);
        lemma_attrs_html_raw(attrs, j + 1);
        assert(crate::html::spec_attrs_html(attrs, j) =~= spec_attrs_raw_sp(attrs, j));
    }
}

/// The raw attribute text of at least one pair ends with the closing quote.
proof fn lemma_attrs_raw_last(attrs: Seq<(Seq<char>, Seq<char>)>, j: int)
    requires
        0 <= j < attrs.len(),
    ensures
        spec_attrs_raw(attrs, j).len() >= attrs[j].0.len() + 3,
        (spec_attrs_raw(attrs, j)[spec_attrs_raw(attrs, j).len() - 1] == '"'),
    decreases attrs.len() - j,
{
    let raw = spec_attrs_raw(attrs, j);
    if j + 1 < attrs.len() {
        lemma_attrs_raw_last(attrs, j + 1);
        assert(raw[raw.len() - 1] == spec_attrs_raw(attrs, j + 1)[spec_attrs_raw(
            attrs,
            j + 1,
        ).len() - 1]);
    } else {
        assert(spec_attrs_raw_sp(attrs, j + 1) =~= Seq::<char>::empty());
        assert(raw =~= attrs[j].0 + seq!['=', '"'] + attrs[j].1 + seq!['"']);
    }
}

/// Scanning the raw attribute text from the start of pair `j`'s key, in
/// the key state with an empty buffer, collects the keys and values of the
/// pairs from `j` on.
#[verifier::rlimit(50)]
proof fn lemma_attr_scan_pairs(
    t: Seq<char>,
    attrs: Seq<(Seq<char>, Seq<char>)>,
    j: int,
    p: int,
    keys: Seq<Seq<char>>,
    vals: Seq<Seq<char>>,
)
    requires
        0 <= j < attrs.len(),
        plain_attrs(attrs),
        0 <= p <= t.len(),
        t.subrange(p, t.len() as int) == spec_attrs_raw(attrs, j),
    ensures
        (spec_attr_scan(t, p, AttrState::Key, Seq::empty(), keys, vals) == (
            keys + spec_keys_of(attrs).subrange(j, attrs.len() as int),
            vals + spec_vals_of(attrs).subrange(j, attrs.len() as int),
        )),
    decreases attrs.len() - j, 0int,
{
    let k0 = attrs[j].0;
    let v0 = attrs[j].1;
    let raw = spec_attrs_raw(attrs, j);
    let b1 = p + k0.len() as int;
    let b2 = b1 + 2;
    let b3 = b2 + v0.len() as int;
    let b4 = b3 + 1;
    assert(plain_attr(k0, v0));
    assert(t.len() - p == raw.len());
    assert(forall|i: int| p <= i < t.len() ==> #[trigger] t[i] == raw[i - p]) by {
        assert(forall|i: int|
            0 <= i < raw.len() ==> t.subrange(p, t.len() as int)[i] == raw[i]);
    }
    assert(forall|i: int| p <= i < b1 ==> #[trigger] t[i] == k0[i - p]);
    assert(forall|i: int| p <= i < b1 ==> #[trigger] t[i] != '=' && !is_space(t[i])) by {
        assert(forall|i: int| p <= i < b1 ==> #[trigger] t[i] == k0[i - p]);
    }
    lemma_attr_key_run(t, p, b1, Seq::empty(), keys, vals);
    assert(Seq::<char>::empty() + t.subrange(p, b1) =~= k0);
    assert(t[b1] == '=');
    assert(spec_attr_scan(t, b1, AttrState::Key, k0, keys, vals) == spec_attr_scan(
        t,
        b1 + 1,
        AttrState::Equal,
        Seq::empty(),
        keys.push(k0),
        vals,
    ));
    assert(t[b1 + 1] == '"');
    assert(spec_attr_scan(t, b1 + 1, AttrState::Equal, Seq::empty(), keys.push(k0), vals)
        == spec_attr_scan(t, b2, AttrState::ValueQ('"'), Seq::empty(), keys.push(k0), vals));
    assert(forall|i: int| b2 <= i < b3 ==> #[trigger] t[i] == v0[i - b2]);
    assert(forall|i: int| b2 <= i < b3 ==> #[trigger] t[i] != '"') by {
        assert(forall|i: int| b2 <= i < b3 ==> #[trigger] t[i] == v0[i - b2]);
    }
    lemma_attr_value_run(t, b2, b3, Seq::empty(), keys.push(k0), vals);
    assert(Seq::<char>::empty() + t.subrange(b2, b3) =~= v0);
    assert(t[b3] == '"');
    if v0.len() > 0 {
        assert(v0[v0.len() - 1] != '\\');
    }
    assert(spec_attr_scan(t, b3, AttrState::ValueQ('"'), v0, keys.push(k0), vals)
        == spec_attr_scan(t, b4, AttrState::Space, Seq::empty(), keys.push(k0), vals.push(v0)));
    if j + 1 == attrs.len() {
        assert(b4 == t.len());
        assert(spec_attr_scan(t, b4, AttrState::Space, Seq::empty(), keys.push(k0), vals.push(v0))
            == (keys.push(k0), vals.push(v0)));
        assert(keys + spec_keys_of(attrs).subrange(j, attrs.len() as int) =~= keys.push(k0));
        assert(vals + spec_vals_of(attrs).subrange(j, attrs.len() as int) =~= vals.push(v0));
    } else {
        assert(t[b4] == ' ');
        assert(spec_attr_scan(t, b4, AttrState::Space, Seq::empty(), keys.push(k0), vals.push(v0))
            == spec_attr_scan(
            t,
            b4 + 1,
            AttrState::Space,
            Seq::empty(),
            keys.push(k0),
            vals.push(v0),
        ));
        assert(attrs[j + 1].0.len() > 0);
        lemma_attrs_raw_last(attrs, j + 1);
        assert(spec_attrs_raw_sp(attrs, j + 1)[1] == spec_attrs_raw(attrs, j + 1)[0]);
        assert(spec_attrs_raw(attrs, j + 1)[0] == attrs[j + 1].0[0]);
        assert(t[b4 + 1] == attrs[j + 1].0[0]);
        assert(!is_space(t[b4 + 1]));
        assert(spec_attr_scan(
            t,
            b4 + 1,
            AttrState::Space,
            Seq::empty(),
            keys.push(k0),
            vals.push(v0),
        ) == spec_attr_scan(
            t,
            b4 + 2,
            AttrState::Key,
            seq![t[b4 + 1]],
            keys.push(k0),
            vals.push(v0),
        ));
        assert(t.subrange(b4 + 1, t.len() as int) =~= spec_attrs_raw(attrs, j + 1));
        lemma_attr_scan_pairs_mid(t, attrs, j + 1, b4 + 1, keys.push(k0), vals.push(v0));
        assert(keys + spec_keys_of(attrs).subrange(j, attrs.len() as int) =~= keys.push(k0)
            + spec_keys_of(attrs).subrange(j + 1, attrs.len() as int));
        assert(vals + spec_vals_of(attrs).subrange(j, attrs.len() as int) =~= vals.push(v0)
            + spec_vals_of(attrs).subrange(j + 1, attrs.len() as int));
    }
}

/// The form of [`lemma_attr_scan_pairs`] for a key whose first character
/// is already buffered.
proof fn lemma_attr_scan_pairs_mid(
    t: Seq<char>,
    attrs: Seq<(Seq<char>, Seq<char>)>,
    j: int,
    p: int,
    keys: Seq<Seq<char>>,
    vals: Seq<Seq<char>>,
)
    requires
        0 <= j < attrs.len(),
        plain_attrs(attrs),
        0 <= p < t.len(),
        t.subrange(p, t.len() as int) == spec_attrs_raw(attrs, j),
    ensures
        (spec_attr_scan(t, p + 1, AttrState::Key, seq![t[p]], keys, vals) == (
            keys + spec_keys_of(attrs).subrange(j, attrs.len() as int),
            vals + spec_vals_of(attrs).subrange(j, attrs.len() as int),
        )),
    decreases attrs.len() - j, 1int,
{
    let k0 = attrs[j].0;
    let b1 = p + k0.len() as int;
    let raw = spec_attrs_raw(attrs, j);
    assert(plain_attr(k0, attrs[j].1));
    assert(t.len() - p == raw.len());
    assert(forall|i: int| p <= i < t.len() ==> #[trigger] t[i] == raw[i - p]) by {
        assert(forall|i: int|
            0 <= i < raw.len() ==> t.subrange(p, t.len() as int)[i] == raw[i]);
    }
    assert(forall|i: int| p <= i < b1 ==> #[trigger] t[i] == k0[i - p]);
    assert(forall|i: int| p + 1 <= i < b1 ==> #[trigger] t[i] != '=' && !is_space(t[i])) by {
        assert(forall|i: int| p <= i < b1 ==> #[trigger] t[i] == k0[i - p]);
    }
    lemma_attr_key_run(t, p + 1, b1, seq![t[p]], keys, vals);
    assert(seq![t[p]] + t.subrange(p + 1, b1) =~= Seq::<char>::empty() + t.subrange(p, b1));
    lemma_attr_key_run(t, p, b1, Seq::empty(), keys, vals);
    lemma_attr_scan_pairs(t, attrs, j, p, keys, vals);
}


/// The raw attribute text of plain pairs with pairwise distinct keys
/// denotes exactly that pair sequence.
proof fn lemma_parse_attrs_list(attrs: Seq<(Seq<char>, Seq<char>)>)
    requires
        attrs.len() > 0,
        plain_attrs(attrs),
        distinct_keys(attrs),
    ensures
        (spec_parse_attrs(spec_attrs_raw(attrs, 0)) == Ok::<
            Seq<(Seq<char>, Seq<char>)>,
            HtmlError,
        >(attrs)),
{
    let t = spec_attrs_raw(attrs, 0);
    assert(t.subrange(0, t.len() as int) =~= t);
    lemma_attr_scan_pairs(t, attrs, 0, 0, Seq::empty(), Seq::empty());
    let keys = Seq::<Seq<char>>::empty() + spec_keys_of(attrs).subrange(0, attrs.len() as int);
    let vals = Seq::<Seq<char>>::empty() + spec_vals_of(attrs).subrange(0, attrs.len() as int);
    assert(keys =~= spec_keys_of(attrs));
    assert(vals =~= spec_vals_of(attrs));
    assert(attrs.subrange(0, 0) =~= Seq::<(Seq<char>, Seq<char>)>::empty());
    lemma_assoc_from_distinct(attrs, 0);
}

/// `<name k1="v1" ...>` with a plain name and plain, distinct attribute
/// pairs classifies as an opening tag carrying exactly those pairs.
proof fn lemma_classify_start_attrs(name: Seq<char>, attrs: Seq<(Seq<char>, Seq<char>)>)
    requires
        plain_tag_name(name),
        attrs.len() > 0,
        plain_attrs(attrs),
        distinct_keys(attrs),
    ensures
        (spec_classify(seq!['<'] + name + spec_attrs_raw_sp(attrs, 0) + seq!['>']) == Ok::<
            SpecToken,
            HtmlError,
        >(SpecToken::Start(name, attrs))),
{
    let sp = spec_attrs_raw_sp(attrs, 0);
    let raw = spec_attrs_raw(attrs, 0);
    assert(sp == seq![' '] + raw);
    lemma_attrs_raw_last(attrs, 0);
    let t = seq!['<'] + name + sp + seq!['>'];
    assert(t[t.len() - 2] == raw[raw.len() - 1]);
    assert(t[1] == name[0]);
    let content = t.subrange(1, t.len() - 1);
    assert(content =~= name + sp);
    assert(forall|i: int| 0 <= i < name.len() ==> #[trigger] content[i] == name[i]);
    assert(content[name.len() as int] == ' ');
    assert(forall|i: int| 0 <= i < name.len() ==> !is_space(#[trigger] content[i])) by {
        assert(forall|i: int| 0 <= i < name.len() ==> #[trigger] content[i] == name[i]);
    }
    lemma_name_end_to_space(content, 0, name.len() as int);
    assert(content.subrange(0, name.len() as int) =~= name);
    let rest = content.subrange(name.len() as int, content.len() as int);
    assert(rest =~= sp);
    assert(plain_attr(attrs[0].0, attrs[0].1));
    assert(raw[0] == attrs[0].0[0]);
    assert(rest[0] == ' ' && !is_space(rest[1]) && !is_space(rest[rest.len() - 1]));
    assert(skip_spaces(rest, 0) == 1) by {
        reveal_with_fuel(skip_spaces, 3);
    }
    assert(rscan_spaces(rest, rest.len() as int) == rest.len());
    let trimmed = rest.subrange(1, rest.len() as int);
    assert(spec_trim_text(rest) == trimmed);
    assert(trimmed =~= raw);
    lemma_parse_attrs_list(attrs);
}


/// Lexing a tag across its attribute pairs: each pair's plain stretch
/// accumulates, its opening quote enters and its closing quote leaves the
/// quoted state, moving the scan past all the pairs.
/// Lexing one serialized attribute pair inside a tag: the plain stretch
/// ` key=` accumulates, the opening quote enters and the closing quote
/// leaves the quoted state.
#[verifier::rlimit(50)]
proof fn lemma_lex_one_attr(
    s: Seq<char>,
    b: int,
    p: int,
    k0: Seq<char>,
    v0: Seq<char>,
    acc: Seq<SpecToken>,
)
    requires
        0 <= b,
        b + 1 < s.len(),
        s[b + 1] != '!',
        b < p,
        plain_attr(k0, v0),
        p + k0.len() + v0.len() + 4 <= s.len(),
        (s.subrange(p, p + k0.len() + v0.len() + 4) == seq![' '] + k0 + seq!['=', '"'] + v0
            + seq!['"']),
    ensures
        (spec_lex(s, p, LexState::Tag(s.subrange(b, p), None), acc) == spec_lex(
            s,
            p + k0.len() + v0.len() + 4,
            LexState::Tag(s.subrange(b, p + k0.len() + v0.len() + 4), None),
            acc,
        )),
{
    let seg = seq![' '] + k0 + seq!['=', '"'] + v0 + seq!['"'];
    let q = p + k0.len() as int + v0.len() as int + 4;
    assert forall|i: int| p <= i < q implies #[trigger] s[i] == seg[i - p] by {
        assert(s.subrange(p, q)[i - p] == seg[i - p]);
    }
    let p3 = p + 1 + k0.len() as int + 1;
    let p4 = p3 + 1;
    let p5 = p4 + v0.len() as int;
    assert(s[p] == ' ');
    assert(s[p3 - 1] == '=');
    assert forall|i: int|
        p <= i < p3 implies #[trigger] s[i] != '>' && s[i] != '"' && s[i] != '\'' by {
        if p + 1 <= i < p3 - 1 {
            assert(s[i] == k0[i - p - 1]);
        }
    }
    assert forall|i: int|
        p <= i <= p3 implies !is_comment_open(#[trigger] s.subrange(b, i)) by {
        if i - b == 4 {
            assert(s.subrange(b, i)[1] == s[b + 1]);
        }
    }
    lemma_lex_tag_plain_run(s, b, p, p3, acc);
    assert(s[p3] == '"');
    assert(spec_lex(s, p3, LexState::Tag(s.subrange(b, p3), None), acc) == spec_lex(
        s,
        p4,
        LexState::Tag(s.subrange(b, p3).push('"'), Some('"')),
        acc,
    ));
    assert(s.subrange(b, p3).push('"') =~= s.subrange(b, p4));
    assert forall|i: int| p4 <= i < p5 implies #[trigger] s[i] != '"' by {
        assert(s[i] == v0[i - p4]);
    }
    assert(s[p5] == '"');
    if v0.len() > 0 {
        assert(s[p5 - 1] == v0[v0.len() - 1]);
        assert(s[p5 - 1] != '\\');
    } else {
        assert(s[p5 - 1] == '"');
    }
    lemma_lex_quote_run(s, b, p4, p5, acc);
    assert(p5 + 1 == q);
}

/// Lexing a tag across its attribute pairs: the scan moves past every
/// serialized pair, one [`lemma_lex_one_attr`] step at a time.
proof fn lemma_lex_tag_attrs(
    s: Seq<char>,
    b: int,
    p: int,
    attrs: Seq<(Seq<char>, Seq<char>)>,
    j: int,
    acc: Seq<SpecToken>,
)
    requires
        0 <= b,
        b + 1 < s.len(),
        s[b + 1] != '!',
        b < p,
        0 <= j <= attrs.len(),
        plain_attrs(attrs),
        p + spec_attrs_raw_sp(attrs, j).len() <= s.len(),
        (s.subrange(p, p + spec_attrs_raw_sp(attrs, j).len()) == spec_attrs_raw_sp(
            attrs,
            j,
        )),
    ensures
        (spec_lex(s, p, LexState::Tag(s.subrange(b, p), None), acc) == spec_lex(
            s,
            p + spec_attrs_raw_sp(attrs, j).len(),
            LexState::Tag(s.subrange(b, p + spec_attrs_raw_sp(attrs, j).len()), None),
            acc,
        )),
    decreases attrs.len() - j,
{
    let sp = spec_attrs_raw_sp(attrs, j);
    let q = p + sp.len() as int;
    if j == attrs.len() {
        assert(q == p);
    } else {
        let k0 = attrs[j].0;
        let v0 = attrs[j].1;
        assert(plain_attr(k0, v0));
        assert(sp =~= (seq![' '] + k0 + seq!['=', '"'] + v0 + seq!['"']) + spec_attrs_raw_sp(
            attrs,
            j + 1,
        ));
        let p6 = p + k0.len() as int + v0.len() as int + 4;
        assert(s.subrange(p, p6) =~= seq![' '] + k0 + seq!['=', '"'] + v0 + seq!['"']) by {
            assert(forall|i: int|
                0 <= i < sp.len() ==> #[trigger] s.subrange(p, q)[i] == sp[i]);
        }
        lemma_lex_one_attr(s, b, p, k0, v0, acc);
        assert(s.subrange(p6, q) =~= spec_attrs_raw_sp(attrs, j + 1)) by {
            assert forall|i: int|
                0 <= i < q - p6 implies s.subrange(p6, q)[i] == spec_attrs_raw_sp(
                attrs,
                j + 1,
            )[i] by {
                assert(s.subrange(p6, q)[i] == s[p6 + i]);
                assert(s.subrange(p, q)[p6 - p + i] == sp[p6 - p + i]);
            }
        }
        lemma_lex_tag_attrs(s, b, p6, attrs, j + 1, acc);
    }
}


/// The doctype marker classifies as a doctype token.
proof fn lemma_classify_doctype()
    ensures
        spec_classify(("<!DOCTYPE html>")@) == Ok::<SpecToken, HtmlError>(SpecToken::Doctype),
{
    reveal_strlit("<!DOCTYPE html>");
}

/// Lexing one whole opening tag from text mode: the `<` opens the buffer,
/// the name and attribute pairs accumulate, and the `>` closes the tag
/// into its start token.
#[verifier::rlimit(50)]
proof fn lemma_lex_open_tag(
    s: Seq<char>,
    p: int,
    name: Seq<char>,
    attrs: Seq<(Seq<char>, Seq<char>)>,
    acc: Seq<SpecToken>,
)
    requires
        plain_tag_name(name),
        plain_attrs(attrs),
        distinct_keys(attrs),
        0 <= p,
        p + 2 + name.len() + spec_attrs_raw_sp(attrs, 0).len() <= s.len(),
        (s.subrange(p, p + 2 + name.len() + spec_attrs_raw_sp(attrs, 0).len()) == seq!['<']
            + name + spec_attrs_raw_sp(attrs, 0) + seq!['>']),
    ensures
        (spec_lex(s, p, LexState::Text(Seq::empty()), acc) == spec_lex(
            s,
            p + 2 + name.len() + spec_attrs_raw_sp(attrs, 0).len(),
            LexState::Text(Seq::empty()),
            acc.push(SpecToken::Start(name, attrs)),
        )),
{
    let sp = spec_attrs_raw_sp(attrs, 0);
    let seg = seq!['<'] + name + sp + seq!['>'];
    let m = p + 2 + name.len() as int + sp.len() as int;
    assert forall|i: int| p <= i < m implies #[trigger] s[i] == seg[i - p] by {
        assert(s.subrange(p, m)[i - p] == seg[i - p]);
    }
    let p1 = p + 1 + name.len() as int;
    let p2 = p1 + sp.len() as int;
    assert(s[p] == '<');
    assert(spec_lex(s, p, LexState::Text(Seq::empty()), acc) == spec_lex(
        s,
        p + 1,
        LexState::Tag(seq!['<'], None),
        acc,
    ));
    assert(seq!['<'] =~= s.subrange(p, p + 1));
    assert(s[p + 1] == name[0]);
    assert forall|i: int|
        p + 1 <= i < p1 implies #[trigger] s[i] != '>' && s[i] != '"' && s[i] != '\'' by {
        assert(s[i] == name[i - p - 1]);
    }
    assert forall|i: int|
        p + 1 <= i <= p1 implies !is_comment_open(#[trigger] s.subrange(p, i)) by {
        if i - p == 4 {
            assert(s.subrange(p, i)[1] == s[p + 1]);
        }
    }
    lemma_lex_tag_plain_run(s, p, p + 1, p1, acc);
    assert(s.subrange(p1, p2) =~= sp);
    lemma_lex_tag_attrs(s, p, p1, attrs, 0, acc);
    assert(s[p2] == '>');
    assert(spec_lex(s, p2, LexState::Tag(s.subrange(p, p2), None), acc) == match spec_classify(
        s.subrange(p, p2).push('>'),
    ) {
        Ok(tok) => spec_lex(s, p2 + 1, LexState::Text(Seq::empty()), acc.push(tok)),
        Err(e) => Err::<Seq<SpecToken>, HtmlError>(e),
    });
    assert(s.subrange(p, p2).push('>') =~= seq!['<'] + name + sp + seq!['>']);
    if attrs.len() == 0 {
        assert(sp =~= Seq::<char>::empty());
        assert(seq!['<'] + name + sp + seq!['>'] =~= seq!['<'] + name + seq!['>']);
        assert(attrs =~= Seq::<(Seq<char>, Seq<char>)>::empty());
        lemma_classify_start_plain(name);
    } else {
        lemma_classify_start_attrs(name, attrs);
    }
    assert(spec_classify(s.subrange(p, p2).push('>')) == Ok::<SpecToken, HtmlError>(
        SpecToken::Start(name, attrs),
    ));
    assert(spec_lex(s, p2, LexState::Tag(s.subrange(p, p2), None), acc) == spec_lex(
        s,
        m,
        LexState::Text(Seq::empty()),
        acc.push(SpecToken::Start(name, attrs)),
    ));
    assert(spec_lex(s, p + 1, LexState::Tag(s.subrange(p, p + 1), None), acc) == spec_lex(
        s,
        p1,
        LexState::Tag(s.subrange(p, p1), None),
        acc,
    ));
    assert(spec_lex(s, p1, LexState::Tag(s.subrange(p, p1), None), acc) == spec_lex(
        s,
        p2,
        LexState::Tag(s.subrange(p, p2), None),
        acc,
    ));
}

/// Lexing one whole closing tag from text mode.
proof fn lemma_lex_close_tag(s: Seq<char>, p: int, name: Seq<char>, acc: Seq<SpecToken>)
    requires
        plain_tag_name(name),
        0 <= p,
        p + 3 + name.len() <= s.len(),
        (s.subrange(p, p + 3 + name.len()) == seq!['<', '/'] + name + seq!['>']),
    ensures
        (spec_lex(s, p, LexState::Text(Seq::empty()), acc) == spec_lex(
            s,
            p + 3 + name.len(),
            LexState::Text(Seq::empty()),
            acc.push(SpecToken::End(name)),
        )),
{
    let seg = seq!['<', '/'] + name + seq!['>'];
    let m = p + 3 + name.len() as int;
    assert forall|i: int| p <= i < m implies #[trigger] s[i] == seg[i - p] by {
        assert(s.subrange(p, m)[i - p] == seg[i - p]);
    }
    assert(s[p] == '<');
    assert(spec_lex(s, p, LexState::Text(Seq::empty()), acc) == spec_lex(
        s,
        p + 1,
        LexState::Tag(seq!['<'], None),
        acc,
    ));
    assert(seq!['<'] =~= s.subrange(p, p + 1));
    assert(s[m - 1] == '>');
    assert(s[p + 1] == '/');
    assert forall|i: int|
        p + 1 <= i < m - 1 implies #[trigger] s[i] != '>' && s[i] != '"' && s[i] != '\'' by {
        if i >= p + 2 {
            assert(s[i] == name[i - p - 2]);
        }
    }
    assert forall|i: int|
        p + 1 <= i <= m implies !is_comment_open(#[trigger] s.subrange(p, i)) by {
        if i - p == 4 {
            assert(s.subrange(p, i)[1] == s[p + 1]);
        }
    }
    lemma_lex_tag_scan(s, p, p + 1, m, acc);
    assert(s.subrange(p, m) =~= seq!['<', '/'] + name + seq!['>']);
    lemma_classify_end_plain(name);
}

/// Lexing one whole doctype marker from text mode.
proof fn lemma_lex_doctype_tag(s: Seq<char>, p: int, acc: Seq<SpecToken>)
    requires
        0 <= p,
        p + 15 <= s.len(),
        s.subrange(p, p + 15) == ("<!DOCTYPE html>")@,
    ensures
        (spec_lex(s, p, LexState::Text(Seq::empty()), acc) == spec_lex(
            s,
            p + 15,
            LexState::Text(Seq::empty()),
            acc.push(SpecToken::Doctype),
        )),
{
    reveal_strlit("<!DOCTYPE html>");
    let seg = ("<!DOCTYPE html>")@;
    let m = p + 15;
    assert forall|i: int| p <= i < m implies #[trigger] s[i] == seg[i - p] by {
        assert(s.subrange(p, m)[i - p] == seg[i - p]);
    }
    assert(s[p] == '<');
    assert(spec_lex(s, p, LexState::Text(Seq::empty()), acc) == spec_lex(
        s,
        p + 1,
        LexState::Tag(seq!['<'], None),
        acc,
    ));
    assert(seq!['<'] =~= s.subrange(p, p + 1));
    assert(s[m - 1] == '>');
    assert forall|i: int|
        p + 1 <= i < m - 1 implies #[trigger] s[i] != '>' && s[i] != '"' && s[i] != '\'' by {
        assert(s[i] == seg[i - p]);
    }
    assert forall|i: int|
        p + 1 <= i <= m implies !is_comment_open(#[trigger] s.subrange(p, i)) by {
        if i - p == 4 {
            assert(s.subrange(p, i)[2] == s[p + 2]);
        }
    }
    lemma_lex_tag_scan(s, p, p + 1, m, acc);
    assert(s.subrange(p, m) =~= ("<!DOCTYPE html>")@);
    lemma_classify_doctype();
}

/// Lexing one whole comment from text mode.
proof fn lemma_lex_comment_whole(s: Seq<char>, p: int, t: Seq<char>, acc: Seq<SpecToken>)
    requires
        no_comment_close(t),
        0 <= p,
        p + t.len() + 7 <= s.len(),
        (s.subrange(p, p + t.len() + 7) == seq!['<', '!', '-', '-'] + t + seq!['-', '-', '>']),
    ensures
        (spec_lex(s, p, LexState::Text(Seq::empty()), acc) == spec_lex(
            s,
            p + t.len() + 7,
            LexState::Text(Seq::empty()),
            acc.push(SpecToken::Comment(t)),
        )),
{
    let seg = seq!['<', '!', '-', '-'] + t + seq!['-', '-', '>'];
    let m = p + t.len() as int + 7;
    assert forall|i: int| p <= i < m implies #[trigger] s[i] == seg[i - p] by {
        assert(s.subrange(p, m)[i - p] == seg[i - p]);
    }
    assert(s[p] == '<' && s[p + 1] == '!' && s[p + 2] == '-' && s[p + 3] == '-');
    assert(spec_lex(s, p, LexState::Text(Seq::empty()), acc) == spec_lex(
        s,
        p + 1,
        LexState::Tag(seq!['<'], None),
        acc,
    ));
    assert(seq!['<'].push('!') =~= seq!['<', '!']);
    assert(seq!['<', '!'].push('-') =~= seq!['<', '!', '-']);
    assert(seq!['<', '!', '-'].push('-') =~= seq!['<', '!', '-', '-']);
    assert(spec_lex(s, p + 1, LexState::Tag(seq!['<'], None), acc) == spec_lex(
        s,
        p + 2,
        LexState::Tag(seq!['<', '!'], None),
        acc,
    ));
    assert(spec_lex(s, p + 2, LexState::Tag(seq!['<', '!'], None), acc) == spec_lex(
        s,
        p + 3,
        LexState::Tag(seq!['<', '!', '-'], None),
        acc,
    ));
    assert(is_comment_open(seq!['<', '!', '-', '-']));
    assert(spec_lex(s, p + 3, LexState::Tag(seq!['<', '!', '-'], None), acc) == spec_lex(
        s,
        p + 4,
        LexState::Comment(seq!['<', '!', '-', '-']),
        acc,
    ));
    assert(s.subrange(p, p + 4) =~= seq!['<', '!', '-', '-']);
    lemma_lex_comment_scan(s, t, p, p + 4, acc);
}


/// A serialization-faithful node model: an element has a plain, non-void
/// name and plain attribute pairs with distinct keys, and faithful
/// children; text is non-empty and free of `<`; a comment holds no `-->`.
pub open spec fn wf_node(n: SpecNode) -> bool
    decreases n, 0int,
{
    match n {
        SpecNode::Element { name, attrs, children } => plain_tag_name(name)
            && !crate::data::is_void_tag(name) && plain_attrs(attrs) && distinct_keys(attrs)
            && wf_nodes(children, 0),
        SpecNode::Text(t) => t.len() > 0 && (forall|i: int| 0 <= i < t.len() ==> t[i] != '<'),
        SpecNode::Comment(t) => no_comment_close(t),
        SpecNode::Doctype => true,
    }
}

/// A serialization-faithful forest from index `k` on: every tree is
/// faithful and no two text nodes stand side by side.
pub open spec fn wf_nodes(ns: Seq<SpecNode>, k: int) -> bool
    decreases ns, ns.len() - k,
{
    if !(0 <= k < ns.len()) {
        true
    } else {
        wf_node(ns[k]) && !(ns[k] is Text && k + 1 < ns.len() && ns[k + 1] is Text)
            && wf_nodes(ns, k + 1)
    }
}

/// A faithful node serializes to at least one character, opening with `<`
/// unless it is text.
proof fn lemma_html_node_shape(n: SpecNode)
    requires
        wf_node(n),
    ensures
        crate::html::spec_html_node(n).len() >= 1,
        !(n is Text) ==> crate::html::spec_html_node(n)[0] == '<',
{
    reveal_strlit("<");
    reveal_strlit("<!--");
    reveal_strlit("<!DOCTYPE html>");
    match n {
        SpecNode::Element { name, attrs, children } => {
            assert(crate::html::spec_html_node(n)[0] == ("<")@[0]);
        },
        SpecNode::Text(t) => {},
        SpecNode::Comment(t) => {
            assert(crate::html::spec_html_node(n)[0] == ("<!--")@[0]);
        },
        SpecNode::Doctype => {},
    }
}

/// Lexing the serialized form of a faithful forest from text mode yields
/// exactly its token sequence, provided a `<` or the end of the input
/// follows (so that a trailing text run flushes).
#[verifier::rlimit(100)]
proof fn lemma_lex_render(s: Seq<char>, p: int, ns: Seq<SpecNode>, k: int, acc: Seq<SpecToken>)
    requires
        wf_nodes(ns, k),
        0 <= k <= ns.len(),
        0 <= p,
        p + crate::html::spec_html_nodes(ns, k).len() <= s.len(),
        (s.subrange(p, p + crate::html::spec_html_nodes(ns, k).len())
            == crate::html::spec_html_nodes(ns, k)),
        (p + crate::html::spec_html_nodes(ns, k).len() == s.len() || s[p
            + crate::html::spec_html_nodes(ns, k).len()] == '<'),
    ensures
        (spec_lex(s, p, LexState::Text(Seq::empty()), acc) == spec_lex(
            s,
            p + crate::html::spec_html_nodes(ns, k).len(),
            LexState::Text(Seq::empty()),
            acc + spec_tokens_of_nodes(ns, k),
        )),
    decreases crate::html::spec_html_nodes(ns, k).len(),
{
    reveal_strlit("<");
    reveal_strlit(">");
    reveal_strlit("</");
    reveal_strlit("<!--");
    reveal_strlit("-->");
    assert(("<")@ =~= seq!['<']);
    assert((">")@ =~= seq!['>']);
    assert(("</")@ =~= seq!['<', '/']);
    assert(("<!--")@ =~= seq!['<', '!', '-', '-']);
    assert(("-->")@ =~= seq!['-', '-', '>']);
    let whole = crate::html::spec_html_nodes(ns, k);
    let q = p + whole.len() as int;
    if k == ns.len() {
        assert(q == p);
        assert(acc + spec_tokens_of_nodes(ns, k) =~= acc);
    } else {
        let n = ns[k];
        assert(wf_node(ns[k]));
        assert(wf_nodes(ns, k + 1));
        if k + 1 < ns.len() {
            assert(wf_node(ns[k + 1]));
        }
        let head = crate::html::spec_html_node(n);
        let tail = crate::html::spec_html_nodes(ns, k + 1);
        assert(whole == head + tail);
        assert(spec_tokens_of_nodes(ns, k) == spec_tokens_of_node(ns[k]) + spec_tokens_of_nodes(
            ns,
            k + 1,
        ));
        assert forall|i: int| p <= i < q implies #[trigger] s[i] == whole[i - p] by {
            assert(s.subrange(p, q)[i - p] == whole[i - p]);
        }
        let q1 = p + head.len() as int;
        assert(s.subrange(q1, q) =~= tail);
        lemma_html_node_shape(n);
        if k + 1 < ns.len() {
            lemma_html_node_shape(ns[k + 1]);
        }
        if k + 1 == ns.len() {
            assert(tail =~= Seq::<char>::empty());
            assert(q1 == q);
        }
        match n {
            SpecNode::Text(t) => {
                assert(head == t);
                assert(s.subrange(p, q1) =~= t);
                assert forall|i: int| p <= i < q1 implies #[trigger] s[i] != '<' by {
                    assert(s[i] == t[i - p]);
                }
                assert(q1 == s.len() || s[q1] == '<') by {
                    if q1 < q {
                        assert(k + 1 < ns.len());
                        assert(!(ns[k + 1] is Text));
                        assert(tail == crate::html::spec_html_node(ns[k + 1])
                            + crate::html::spec_html_nodes(ns, k + 2));
                        assert(s[q1] == tail[0]);
                        assert(tail[0] == crate::html::spec_html_node(ns[k + 1])[0]);
                        assert(s[q1] == '<');
                    }
                }
                lemma_lex_text_run(s, p, q1, Seq::empty(), acc);
                assert(Seq::<char>::empty() + s.subrange(p, q1) =~= t);
                let acc2 = acc.push(SpecToken::Text(t));
                if q1 == s.len() {
                    assert(q == q1);
                    assert(spec_lex(s, q, LexState::Text(Seq::empty()), acc + spec_tokens_of_nodes(
                        ns,
                        k,
                    )) == Ok::<Seq<SpecToken>, HtmlError>(acc + spec_tokens_of_nodes(ns, k)));
                    assert(acc + spec_tokens_of_nodes(ns, k) =~= acc2);
                } else {
                    assert(spec_lex(s, q1, LexState::Text(Seq::empty()), acc2) == spec_lex(
                        s,
                        q1 + 1,
                        LexState::Tag(seq!['<'], None),
                        acc2,
                    ));
                    lemma_lex_render(s, q1, ns, k + 1, acc2);
                    assert(spec_tokens_of_node(ns[k]) =~= seq![SpecToken::Text(t)]);
                    assert(acc + spec_tokens_of_nodes(ns, k) =~= acc2 + spec_tokens_of_nodes(
                        ns,
                        k + 1,
                    ));
                }
            },
            SpecNode::Comment(t) => {
                assert(head =~= seq!['<', '!', '-', '-'] + t + seq!['-', '-', '>']);
                assert(s.subrange(p, q1) =~= seq!['<', '!', '-', '-'] + t + seq!['-', '-', '>']);
                lemma_lex_comment_whole(s, p, t, acc);
                let acc2 = acc.push(SpecToken::Comment(t));
                lemma_lex_render(s, q1, ns, k + 1, acc2);
                assert(spec_tokens_of_node(ns[k]) =~= seq![SpecToken::Comment(t)]);
                assert(acc + spec_tokens_of_nodes(ns, k) =~= acc2 + spec_tokens_of_nodes(
                    ns,
                    k + 1,
                ));
            },
            SpecNode::Doctype => {
                assert(head == ("<!DOCTYPE html>")@);
                reveal_strlit("<!DOCTYPE html>");
                assert(s.subrange(p, q1) =~= ("<!DOCTYPE html>")@);
                lemma_lex_doctype_tag(s, p, acc);
                let acc2 = acc.push(SpecToken::Doctype);
                lemma_lex_render(s, q1, ns, k + 1, acc2);
                assert(spec_tokens_of_node(ns[k]) =~= seq![SpecToken::Doctype]);
                assert(acc + spec_tokens_of_nodes(ns, k) =~= acc2 + spec_tokens_of_nodes(
                    ns,
                    k + 1,
                ));
            },
            SpecNode::Element { name, attrs, children } => {
                lemma_attrs_html_raw(attrs, 0);
                let sp = spec_attrs_raw_sp(attrs, 0);
                let chtml = crate::html::spec_html_nodes(children, 0);
                let e1 = p + 2 + name.len() as int + sp.len() as int;
                let e2 = e1 + chtml.len() as int;
                assert(head =~= (seq!['<'] + name + sp + seq!['>']) + chtml + (seq!['<', '/']
                    + name + seq!['>']));
                assert(s.subrange(p, e1) =~= seq!['<'] + name + sp + seq!['>']) by {
                    assert forall|i: int|
                        0 <= i < e1 - p implies s.subrange(p, e1)[i] == (seq!['<'] + name + sp
                            + seq!['>'])[i] by {
                        assert(s.subrange(p, e1)[i] == s[p + i]);
                        assert(s[p + i] == whole[i]);
                        assert(whole[i] == head[i]);
                    }
                }
                lemma_lex_open_tag(s, p, name, attrs, acc);
                let acc1 = acc.push(SpecToken::Start(name, attrs));
                assert(s.subrange(e1, e2) =~= chtml) by {
                    assert forall|i: int| 0 <= i < e2 - e1 implies s.subrange(e1, e2)[i]
                        == chtml[i] by {
                        assert(s.subrange(e1, e2)[i] == s[e1 + i]);
                        assert(s[e1 + i] == whole[e1 - p + i]);
                        assert(whole[e1 - p + i] == head[e1 - p + i]);
                    }
                }
                assert(s[e2] == head[e2 - p]);
                assert(s[e2] == '<');
                lemma_lex_render(s, e1, children, 0, acc1);
                let acc2 = acc1 + spec_tokens_of_nodes(children, 0);
                assert(s.subrange(e2, q1) =~= seq!['<', '/'] + name + seq!['>']) by {
                    assert forall|i: int|
                        0 <= i < q1 - e2 implies s.subrange(e2, q1)[i] == (seq!['<', '/'] + name
                            + seq!['>'])[i] by {
                        assert(s.subrange(e2, q1)[i] == s[e2 + i]);
                        assert(s[e2 + i] == whole[e2 - p + i]);
                        assert(whole[e2 - p + i] == head[e2 - p + i]);
                    }
                }
                lemma_lex_close_tag(s, e2, name, acc2);
                let acc3 = acc2.push(SpecToken::End(name));
                lemma_lex_render(s, q1, ns, k + 1, acc3);
                assert(spec_tokens_of_node(ns[k]) =~= seq![SpecToken::Start(name, attrs)]
                    + spec_tokens_of_nodes(children, 0) + seq![SpecToken::End(name)]);
                assert(acc + spec_tokens_of_nodes(ns, k) =~= acc3 + spec_tokens_of_nodes(
                    ns,
                    k + 1,
                ));
            },
        }
    }
}

/// Round trip, render then parse: serializing any serialization-faithful
/// forest (see [`wf_nodes`]) and parsing the result yields the forest
/// back. The faithfulness bounds are where serialization loses detail: a
/// void-named element drops its children when written out, and an
/// attribute value holding a quote gains an escaping backslash, so such
/// forests can read back differently.
pub proof fn lemma_parse_render(ns: Seq<SpecNode>)
    requires
        wf_nodes(ns, 0),
    ensures
        (spec_parse(crate::html::spec_html_nodes(ns, 0)) == Ok::<Seq<SpecNode>, HtmlError>(
            ns,
        )),
{
    let s = crate::html::spec_html_nodes(ns, 0);
    assert(s.subrange(0, s.len() as int) =~= s);
    lemma_lex_render(s, 0, ns, 0, Seq::empty());
    let toks = spec_tokens_of_nodes(ns, 0);
    assert(Seq::<SpecToken>::empty() + toks =~= toks);
    assert(spec_lex(s, s.len() as int, LexState::Text(Seq::empty()), toks) == Ok::<
        Seq<SpecToken>,
        HtmlError,
    >(toks));
    assert(spec_tokens(s) == Ok::<Seq<SpecToken>, HtmlError>(toks));
    lemma_build_inverts(ns);
}


/// Round trip: parsing, serializing and parsing again repeats the first
/// parse, for every input whose parse is a serialization-faithful forest
/// (see [`wf_nodes`] and [`lemma_parse_render`]).
pub proof fn lemma_round_trip(x: Seq<char>)
    requires
        spec_parse(x) is Ok,
        wf_nodes(spec_parse(x)->Ok_0, 0),
    ensures
        (spec_parse(crate::html::spec_html_nodes(spec_parse(x)->Ok_0, 0)) == spec_parse(x)),
{
    lemma_parse_render(spec_parse(x)->Ok_0);
}

} // verus!
