//! What the template helpers compute, on the rendered values of their
//! arguments. Lists are whitespace-separated and re-emitted space-joined.
use crate::error::ZinnError;
use crate::text::{
    chars_of, encode_list, join_with, parse_list, push_char, replace_char, replace_chars, str_eq,
    views, words,
};
use regex_lite::Regex;
use vstd::prelude::*;

verus! {

#[verifier::external_type_specification]
#[verifier::external_body]
pub struct ExRegex(Regex);

/// Whether `regex_lite` accepts `pattern`.
pub uninterp spec fn regex_compiles(pattern: Seq<char>) -> bool;

/// What replacing every match of `pattern` in `text` by `rep` gives.
pub uninterp spec fn regex_replaced(pattern: Seq<char>, text: Seq<char>, rep: Seq<char>) -> Seq<char>;

/// A compiled regular expression, with the pattern it was compiled from.
pub struct Pattern {
    source: String,
    regex: Regex,
}

impl Pattern {
    pub closed spec fn source(&self) -> Seq<char> {
        self.source@
    }
}

/// Relies on `regex_lite::Regex::new`: whether it compiles depends on the
/// pattern alone; the error becomes its message.
#[verifier::external_body]
fn compile_regex(pattern: &str) -> (r: Result<Pattern, String>)
    ensures
        r is Ok <==> regex_compiles(pattern@),
        r matches Ok(p) ==> p.source() == pattern@,
{
    Regex::new(pattern).map(|regex| Pattern { source: pattern.to_string(), regex }).map_err(|e| e.to_string())
}

/// Relies on `regex_lite::Regex::replace_all`: every non-overlapping match of
/// the pattern replaced, `$name` in `rep` expanded.
#[verifier::external_body]
fn replace_matches(p: &Pattern, text: &str, rep: &str) -> (r: String)
    ensures
        r@ == regex_replaced(p.source(), text@, rep@),
{
    p.regex.replace_all(text, rep).into_owned()
}

/// The arguments concatenated.
pub open spec fn concat_all(l: Seq<Seq<char>>) -> Seq<char>
    decreases l.len(),
{
    if l.len() == 0 {
        seq![]
    } else {
        concat_all(l.drop_last()) + l.last()
    }
}

pub fn cat(params: &Vec<String>) -> (r: String)
    ensures
        r@ == concat_all(views(params@)),
{
    let mut out = String::new();
    let mut i: usize = 0;
    while i < params.len()
        invariant
            i <= params.len(),
            out@ == concat_all(views(params@.take(i as int))),
        decreases params.len() - i,
    {
        assert(views(params@.take(i + 1)).drop_last() =~= views(params@.take(i as int)));
        out.append(params[i].as_str());
        i += 1;
    }
    assert(params@.take(i as int) =~= params@);
    out
}

/// Newlines replaced by spaces.
pub fn joinlines(base: &str) -> (r: String)
    ensures
        r@ == replace_char(base@, '\n', ' '),
{
    replace_chars(base, '\n', ' ')
}

/// The items of all the lists, in order.
pub open spec fn all_words(l: Seq<Seq<char>>) -> Seq<Seq<char>>
    decreases l.len(),
{
    if l.len() == 0 {
        seq![]
    } else {
        all_words(l.drop_last()) + words(l.last())
    }
}

/// All the lists joined into one.
pub fn lst(params: &Vec<String>) -> (r: String)
    ensures
        r@ == join_with(all_words(views(params@)), seq![' ']),
{
    let mut items: Vec<String> = Vec::new();
    let mut i: usize = 0;
    while i < params.len()
        invariant
            i <= params.len(),
            views(items@) == all_words(views(params@.take(i as int))),
        decreases params.len() - i,
    {
        assert(views(params@.take(i + 1)).drop_last() =~= views(params@.take(i as int)));
        let mut more = parse_list(params[i].as_str());
        let ghost before = items@;
        let ghost added = more@;
        items.append(&mut more);
        assert(views(items@) =~= views(before) + views(added));
        i += 1;
    }
    assert(params@.take(i as int) =~= params@);
    encode_list(&items)
}

/// Each item of `l` with `p` before it.
pub open spec fn prefixed(l: Seq<Seq<char>>, p: Seq<char>) -> Seq<Seq<char>>
    decreases l.len(),
{
    if l.len() == 0 {
        seq![]
    } else {
        prefixed(l.drop_last(), p).push(p + l.last())
    }
}

/// Each item of `l` with `x` after it.
pub open spec fn suffixed(l: Seq<Seq<char>>, x: Seq<char>) -> Seq<Seq<char>>
    decreases l.len(),
{
    if l.len() == 0 {
        seq![]
    } else {
        suffixed(l.drop_last(), x).push(l.last() + x)
    }
}

/// Each item of `l` with the matches of `pattern` replaced by `rep`.
pub open spec fn replaced_each(l: Seq<Seq<char>>, pattern: Seq<char>, rep: Seq<char>) -> Seq<Seq<char>>
    decreases l.len(),
{
    if l.len() == 0 {
        seq![]
    } else {
        replaced_each(l.drop_last(), pattern, rep).push(regex_replaced(pattern, l.last(), rep))
    }
}

/// Each item with `prefix` before it.
pub fn lst_prefix(prefix: &str, list: &str) -> (r: String)
    ensures
        r@ == join_with(prefixed(words(list@), prefix@), seq![' ']),
{
    let items = parse_list(list);
    let mut out: Vec<String> = Vec::new();
    let mut i: usize = 0;
    while i < items.len()
        invariant
            i <= items.len(),
            views(items@) == words(list@),
            views(out@) == prefixed(words(list@).take(i as int), prefix@),
        decreases items.len() - i,
    {
        let mut s = String::from_str(prefix);
        s.append(items[i].as_str());
        let ghost before = out@;
        out.push(s);
        assert(views(items@)[i as int] == items@[i as int]@);
        assert(words(list@).take(i + 1).drop_last() =~= words(list@).take(i as int));
        assert(views(out@) =~= prefixed(words(list@).take(i + 1), prefix@));
        i += 1;
    }
    assert(words(list@).take(i as int) =~= words(list@));
    encode_list(&out)
}

/// Each item with `suffix` after it.
pub fn lst_suffix(suffix: &str, list: &str) -> (r: String)
    ensures
        r@ == join_with(suffixed(words(list@), suffix@), seq![' ']),
{
    let items = parse_list(list);
    let mut out: Vec<String> = Vec::new();
    let mut i: usize = 0;
    while i < items.len()
        invariant
            i <= items.len(),
            views(items@) == words(list@),
            views(out@) == suffixed(words(list@).take(i as int), suffix@),
        decreases items.len() - i,
    {
        let mut s = items[i].clone();
        s.append(suffix);
        out.push(s);
        assert(views(items@)[i as int] == items@[i as int]@);
        assert(words(list@).take(i + 1).drop_last() =~= words(list@).take(i as int));
        assert(views(out@) =~= suffixed(words(list@).take(i + 1), suffix@));
        i += 1;
    }
    assert(words(list@).take(i as int) =~= words(list@));
    encode_list(&out)
}

/// The items of `l` that are none of `removed`.
pub open spec fn kept(l: Seq<Seq<char>>, removed: Seq<Seq<char>>) -> Seq<Seq<char>>
    decreases l.len(),
{
    if l.len() == 0 {
        seq![]
    } else if removed.contains(l.last()) {
        kept(l.drop_last(), removed)
    } else {
        kept(l.drop_last(), removed).push(l.last())
    }
}

fn is_listed(items: &Vec<String>, x: &String) -> (r: bool)
    ensures
        r == views(items@).contains(x@),
{
    let mut i: usize = 0;
    while i < items.len()
        invariant
            i <= items.len(),
            forall|k: int| 0 <= k < i ==> items@[k]@ != x@,
        decreases items.len() - i,
    {
        if str_eq(items[i].as_str(), x.as_str()) {
            assert(views(items@)[i as int] == x@);
            return true;
        }
        i += 1;
    }
    assert forall|k: int| 0 <= k < views(items@).len() implies views(items@)[k] != x@ by {
        assert(views(items@)[k] == items@[k]@);
    }
    false
}

/// The list without the items that equal one of `removed`.
pub fn lst_without(list: &str, removed: &Vec<String>) -> (r: String)
    ensures
        r@ == join_with(kept(words(list@), views(removed@)), seq![' ']),
{
    let items = parse_list(list);
    let mut out: Vec<String> = Vec::new();
    let mut i: usize = 0;
    while i < items.len()
        invariant
            i <= items.len(),
            views(items@) == words(list@),
            views(out@) == kept(words(list@).take(i as int), views(removed@)),
        decreases items.len() - i,
    {
        assert(words(list@).take(i + 1).drop_last() =~= words(list@).take(i as int));
        assert(views(items@)[i as int] == items@[i as int]@);
        if !is_listed(removed, &items[i]) {
            let ghost before = out@;
            out.push(items[i].clone());
            assert(views(out@) =~= views(before).push(items@[i as int]@));
        }
        i += 1;
    }
    assert(words(list@).take(i as int) =~= words(list@));
    encode_list(&out)
}

/// The regular expression `pattern` replaced in `base` by `replacement`.
pub fn re(base: &str, pattern: &str, replacement: &str) -> (r: Result<String, ZinnError>)
    ensures
        r is Ok <==> regex_compiles(pattern@),
        r matches Ok(s) ==> s@ == regex_replaced(pattern@, base@, replacement@),
        r is Err ==> r matches Err(ZinnError::RegexError(_)),
{
    match compile_regex(pattern) {
        Ok(p) => Ok(replace_matches(&p, base, replacement)),
        Err(m) => Err(ZinnError::RegexError(m)),
    }
}

/// The regular expression `pattern` replaced in each item of the list.
pub fn lst_re(list: &str, pattern: &str, replacement: &str) -> (r: Result<String, ZinnError>)
    ensures
        r is Ok <==> regex_compiles(pattern@),
        r matches Ok(s) ==> s@ == join_with(
            replaced_each(words(list@), pattern@, replacement@),
            seq![' '],
        ),
        r is Err ==> r matches Err(ZinnError::RegexError(_)),
{
    let p = match compile_regex(pattern) {
        Ok(p) => p,
        Err(m) => return Err(ZinnError::RegexError(m)),
    };
    let items = parse_list(list);
    let mut out: Vec<String> = Vec::new();
    let mut i: usize = 0;
    while i < items.len()
        invariant
            i <= items.len(),
            p.source() == pattern@,
            views(items@) == words(list@),
            views(out@) == replaced_each(words(list@).take(i as int), pattern@, replacement@),
        decreases items.len() - i,
    {
        let s = replace_matches(&p, items[i].as_str(), replacement);
        out.push(s);
        assert(views(items@)[i as int] == items@[i as int]@);
        assert(words(list@).take(i + 1).drop_last() =~= words(list@).take(i as int));
        assert(views(out@) =~= replaced_each(words(list@).take(i + 1), pattern@, replacement@));
        i += 1;
    }
    assert(words(list@).take(i as int) =~= words(list@));
    Ok(encode_list(&out))
}

/// `rep` before, between and after the characters of `s`: what replacing
/// the empty pattern gives.
pub open spec fn interleaved(s: Seq<char>, rep: Seq<char>) -> Seq<char>
    decreases s.len(),
{
    if s.len() == 0 {
        rep
    } else {
        rep + seq![s[0]] + interleaved(s.skip(1), rep)
    }
}

/// `s` with every non-overlapping occurrence of `pat`, from the left,
/// replaced by `rep`.
pub open spec fn replaced(s: Seq<char>, pat: Seq<char>, rep: Seq<char>) -> Seq<char>
    decreases s.len(),
{
    if pat.len() == 0 {
        interleaved(s, rep)
    } else if s.len() < pat.len() {
        s
    } else if s.take(pat.len() as int) == pat {
        rep + replaced(s.skip(pat.len() as int), pat, rep)
    } else {
        seq![s[0]] + replaced(s.skip(1), pat, rep)
    }
}

fn occurs_at(cs: &Vec<char>, ps: &Vec<char>, i: usize) -> (r: bool)
    requires
        i + ps.len() <= cs.len(),
    ensures
        r == (cs@.subrange(i as int, i + ps.len()) == ps@),
{
    let mut k: usize = 0;
    while k < ps.len()
        invariant
            k <= ps.len(),
            i + ps.len() <= cs.len(),
            forall|j: int| 0 <= j < k ==> cs@[i + j] == ps@[j],
        decreases ps.len() - k,
    {
        if cs[i + k] != ps[k] {
            assert(cs@.subrange(i as int, i + ps.len())[k as int] != ps@[k as int]);
            return false;
        }
        k += 1;
    }
    assert(cs@.subrange(i as int, i + ps.len()) =~= ps@);
    true
}

/// Every occurrence of `pattern` in `base` replaced by `replacement`.
pub fn subst(base: &str, pattern: &str, replacement: &str) -> (r: String)
    ensures
        r@ == replaced(base@, pattern@, replacement@),
{
    let cs = chars_of(base);
    let ps = chars_of(pattern);
    let mut out = String::new();
    let mut i: usize = 0;
    assert(cs@.skip(0) =~= cs@);
    if ps.len() == 0 {
        assert(out@ + interleaved(cs@, replacement@) =~= interleaved(cs@, replacement@));
        while i < cs.len()
            invariant
                i <= cs.len(),
                cs@ == base@,
                ps@ == pattern@,
                out@ + interleaved(cs@.skip(i as int), replacement@) == replaced(base@, pattern@, replacement@),
            decreases cs.len() - i,
        {
            let ghost rest = cs@.skip(i as int);
            assert(rest.skip(1) =~= cs@.skip(i + 1));
            let ghost before = out@;
            out.append(replacement);
            push_char(&mut out, cs[i]);
            assert(out@ + interleaved(cs@.skip(i + 1), replacement@) =~= before + interleaved(rest, replacement@));
            i += 1;
        }
        let ghost before = out@;
        out.append(replacement);
        assert(cs@.skip(i as int) =~= Seq::<char>::empty());
        return out;
    }
    assert(out@ + replaced(cs@, pattern@, replacement@) =~= replaced(cs@, pattern@, replacement@));
    while i < cs.len()
        invariant
            i <= cs.len(),
            ps.len() > 0,
            cs@ == base@,
            ps@ == pattern@,
            out@ + replaced(cs@.skip(i as int), pattern@, replacement@) == replaced(base@, pattern@, replacement@),
        decreases cs.len() - i,
    {
        let ghost rest = cs@.skip(i as int);
        let ghost before = out@;
        if ps.len() <= cs.len() - i && occurs_at(&cs, &ps, i) {
            assert(rest.take(ps.len() as int) =~= cs@.subrange(i as int, i + ps.len()));
            assert(rest.skip(ps.len() as int) =~= cs@.skip(i + ps.len()));
            out.append(replacement);
            i += ps.len();
            assert(out@ + replaced(cs@.skip(i as int), pattern@, replacement@) =~= before + replaced(rest, pattern@, replacement@));
        } else {
            if ps.len() <= cs.len() - i {
                assert(rest.take(ps.len() as int) =~= cs@.subrange(i as int, i + ps.len()));
            } else {
                assert(cs@.skip(i + 1).len() < ps.len());
                assert(rest =~= seq![cs@[i as int]] + cs@.skip(i + 1));
            }
            assert(rest.skip(1) =~= cs@.skip(i + 1));
            push_char(&mut out, cs[i]);
            i += 1;
            assert(out@ + replaced(cs@.skip(i as int), pattern@, replacement@) =~= before + replaced(rest, pattern@, replacement@));
        }
    }
    assert(cs@.skip(i as int) =~= Seq::<char>::empty());
    out
}

/// Each argument after a space: the command line that the `shell` helper runs.
pub open spec fn spaced(l: Seq<Seq<char>>) -> Seq<char>
    decreases l.len(),
{
    if l.len() == 0 {
        seq![]
    } else {
        spaced(l.drop_last()) + seq![' '] + l.last()
    }
}

/// The command line of the `shell` helper: each argument after a space.
pub fn shell_command(params: &Vec<String>) -> (r: String)
    ensures
        r@ == spaced(views(params@)),
{
    let mut out = String::new();
    let mut i: usize = 0;
    while i < params.len()
        invariant
            i <= params.len(),
            out@ == spaced(views(params@.take(i as int))),
        decreases params.len() - i,
    {
        assert(views(params@.take(i + 1)).drop_last() =~= views(params@.take(i as int)));
        push_char(&mut out, ' ');
        out.append(params[i].as_str());
        i += 1;
        assert(views(params@.take(i as int)).last() == params@[i - 1]@);
        assert(out@ =~= spaced(views(params@.take(i as int))));
    }
    assert(params@.take(i as int) =~= params@);
    out
}

/// `s` without one newline at its end, if it ends with one.
pub open spec fn without_final_newline(s: Seq<char>) -> Seq<char> {
    if s.len() > 0 && s.last() == '\n' {
        s.drop_last()
    } else {
        s
    }
}

/// The output of the `shell` helper's command as it is emitted.
pub fn trim_final_newline(s: &str) -> (r: String)
    ensures
        r@ == without_final_newline(s@),
{
    let cs = chars_of(s);
    if cs.len() > 0 && cs[cs.len() - 1] == '\n' {
        let mut out = String::new();
        let mut i: usize = 0;
        while i < cs.len() - 1
            invariant
                0 < cs.len(),
                i <= cs.len() - 1,
                cs@ == s@,
                out@ == cs@.take(i as int),
            decreases cs.len() - 1 - i,
        {
            push_char(&mut out, cs[i]);
            i += 1;
            assert(out@ =~= cs@.take(i as int));
        }
        assert(out@ =~= s@.drop_last());
        out
    } else {
        String::from_str(s)
    }
}

} // verus!
