//! Manifest frontmatter parsing.
//!
//! A manifest's frontmatter block is delimited by `---` at the very start
//! and the next occurrence of `---`; inside it, `key: value` lines for
//! `name`, `description` and `version` are recognized, values losing one
//! layer of matching surrounding quote characters, single or double.
//! When no block is found, or `name` comes out empty, the first `# `
//! heading line supplies the name.  Parsing never fails: missing pieces
//! degrade to empty strings or absence.

use vstd::prelude::*;
use vstd::string::*;
use crate::text::{
    avoids, has_prefix, is_space_char, lemma_avoids_concat, lemma_split_acc_no_sep,
    lemma_split_acc_sep, lemma_trim_noop, lemma_trim_space_prefix, split_acc, split_char,
    split_char_spec, strip_prefix_str, trim_end_spec, trim_spec, trim_start_spec, trim_str,
    views_of,
};

verus! {

pub open spec fn name_key() -> Seq<char> {
    seq!['n', 'a', 'm', 'e', ':']
}

pub open spec fn description_key() -> Seq<char> {
    seq!['d', 'e', 's', 'c', 'r', 'i', 'p', 't', 'i', 'o', 'n', ':']
}

pub open spec fn version_key() -> Seq<char> {
    seq!['v', 'e', 'r', 's', 'i', 'o', 'n', ':']
}

pub open spec fn heading_key() -> Seq<char> {
    seq!['#', ' ']
}

/// A value loses exactly one layer of matching surrounding quote
/// characters — a double-quote pair checked first, else a single-quote
/// pair; unmatched, mixed or lone quotes stay.
pub open spec fn unquote_spec(s: Seq<char>) -> Seq<char> {
    if s.len() >= 2 && s[0] == '"' && s.last() == '"' {
        s.subrange(1, s.len() - 1)
    } else if s.len() >= 2 && s[0] == '\'' && s.last() == '\'' {
        s.subrange(1, s.len() - 1)
    } else {
        s
    }
}

/// The three fields carried while walking frontmatter lines.
pub open spec fn fm_line_apply(
    acc: (Seq<char>, Seq<char>, Option<Seq<char>>),
    line: Seq<char>,
) -> (Seq<char>, Seq<char>, Option<Seq<char>>) {
    let t = trim_spec(line);
    if has_prefix(t, name_key()) {
        (unquote_spec(trim_spec(t.skip(name_key().len() as int))), acc.1, acc.2)
    } else if has_prefix(t, description_key()) {
        (acc.0, unquote_spec(trim_spec(t.skip(description_key().len() as int))), acc.2)
    } else if has_prefix(t, version_key()) {
        (acc.0, acc.1, Some(unquote_spec(trim_spec(t.skip(version_key().len() as int)))))
    } else {
        acc
    }
}

pub open spec fn fm_fold(
    lines: Seq<Seq<char>>,
    acc: (Seq<char>, Seq<char>, Option<Seq<char>>),
) -> (Seq<char>, Seq<char>, Option<Seq<char>>)
    decreases lines.len(),
{
    if lines.len() == 0 {
        acc
    } else {
        fm_fold(lines.skip(1), fm_line_apply(acc, lines[0]))
    }
}

/// The name taken from the first `# ` heading line, or empty.
pub open spec fn heading_spec(lines: Seq<Seq<char>>) -> Seq<char>
    decreases lines.len(),
{
    if lines.len() == 0 {
        Seq::empty()
    } else if has_prefix(lines[0], heading_key()) {
        trim_spec(lines[0].skip(heading_key().len() as int))
    } else {
        heading_spec(lines.skip(1))
    }
}

/// Three `-` characters at position `i`.
pub open spec fn marker_at(s: Seq<char>, i: int) -> bool {
    i + 3 <= s.len() && s[i] == '-' && s[i + 1] == '-' && s[i + 2] == '-'
}

pub open spec fn find_marker_from(s: Seq<char>, i: int) -> Option<int>
    decreases s.len() - i,
{
    if i + 3 > s.len() {
        None
    } else if marker_at(s, i) {
        Some(i)
    } else {
        find_marker_from(s, i + 1)
    }
}

/// The `name` / `description` / `version` fields read from the
/// frontmatter block alone, before the heading fallback.
pub open spec fn fm_fields(content: Seq<char>) -> (Seq<char>, Seq<char>, Option<Seq<char>>) {
    if marker_at(content, 0) {
        match find_marker_from(content, 3) {
            Some(j) => fm_fold(
                split_char_spec(content.subrange(3, j), '\n'),
                (Seq::empty(), Seq::empty(), None),
            ),
            None => (Seq::empty(), Seq::empty(), None),
        }
    } else {
        (Seq::empty(), Seq::empty(), None)
    }
}

/// The full parse: frontmatter fields, with the first `# ` heading as the
/// name when the block gives none.
pub open spec fn parse_frontmatter_spec(content: Seq<char>) -> (
    Seq<char>,
    Seq<char>,
    Option<Seq<char>>,
) {
    let fields = fm_fields(content);
    if fields.0.len() == 0 {
        (heading_spec(split_char_spec(content, '\n')), fields.1, fields.2)
    } else {
        fields
    }
}

fn find_marker_from_3(content: &str) -> (r: Option<usize>)
    requires
        content@.len() >= 3,
    ensures
        match r {
            Some(j) => find_marker_from(content@, 3) == Some(j as int) && 3 <= j && j + 3
                <= content@.len(),
            None => find_marker_from(content@, 3) is None,
        },
{
    let n = content.unicode_len();
    let mut j: usize = 3;
    while j <= n - 3
        invariant
            n == content@.len(),
            n >= 3,
            3 <= j,
            j <= n,
            find_marker_from(content@, 3) == find_marker_from(content@, j as int),
        decreases n - j,
    {
        if content.get_char(j) == '-' && content.get_char(j + 1) == '-' && content.get_char(j + 2)
            == '-' {
            return Some(j);
        }
        j += 1;
    }
    None
}

fn unquote(s: &str) -> (r: String)
    ensures
        r@ == unquote_spec(trim_spec(s@)),
{
    let t = trim_str(s);
    let n = t.as_str().unicode_len();
    if n >= 2 {
        let first = t.as_str().get_char(0);
        let last = t.as_str().get_char(n - 1);
        if (first == '"' && last == '"') || (first == '\'' && last == '\'') {
            return t.as_str().substring_char(1, n - 1).to_owned();
        }
    }
    t
}

/// Parse a manifest into `(name, description, version)`.  Never fails:
/// missing or malformed pieces come back as empty strings or `None`.
pub fn parse_skill_frontmatter(content: &str) -> (r: (String, String, Option<String>))
    ensures
        (r.0@, r.1@, r.2.deep_view()) == parse_frontmatter_spec(content@),
{
    let mut name = String::new();
    let mut description = String::new();
    let mut version: Option<String> = None;

    let n = content.unicode_len();
    let marked = n >= 3 && content.get_char(0) == '-' && content.get_char(1) == '-'
        && content.get_char(2) == '-';
    if marked {
        if let Some(j) = find_marker_from_3(content) {
            let block = content.substring_char(3, j);
            let lines = split_char(block, '\n');
            let ghost all_lines = views_of(lines@);
            let mut k: usize = 0;
            proof {
                assert(all_lines.skip(0) =~= all_lines);
            }
            while k < lines.len()
                invariant
                    k <= lines@.len(),
                    all_lines == views_of(lines@),
                    all_lines.len() == lines@.len(),
                    fm_fold(all_lines, (Seq::empty(), Seq::empty(), None)) == fm_fold(
                        all_lines.skip(k as int),
                        (name@, description@, version.deep_view()),
                    ),
                decreases lines@.len() - k,
            {
                let ghost pre = (name@, description@, version.deep_view());
                let line = &lines[k];
                let t = trim_str(line.as_str());
                if let Some(val) = strip_prefix_str(t.as_str(), "name:") {
                    proof {
                        reveal_strlit("name:");
                        assert("name:"@ =~= name_key());
                    }
                    name = unquote(val.as_str());
                } else if let Some(val) = strip_prefix_str(t.as_str(), "description:") {
                    proof {
                        reveal_strlit("name:");
                        reveal_strlit("description:");
                        assert("name:"@ =~= name_key());
                        assert("description:"@ =~= description_key());
                    }
                    description = unquote(val.as_str());
                } else if let Some(val) = strip_prefix_str(t.as_str(), "version:") {
                    proof {
                        reveal_strlit("name:");
                        reveal_strlit("description:");
                        reveal_strlit("version:");
                        assert("name:"@ =~= name_key());
                        assert("description:"@ =~= description_key());
                        assert("version:"@ =~= version_key());
                    }
                    version = Some(unquote(val.as_str()));
                } else {
                    proof {
                        reveal_strlit("name:");
                        reveal_strlit("description:");
                        reveal_strlit("version:");
                        assert("name:"@ =~= name_key());
                        assert("description:"@ =~= description_key());
                        assert("version:"@ =~= version_key());
                    }
                }
                proof {
                    assert(trim_spec(line@) == t@);
                    assert((name@, description@, version.deep_view()) == fm_line_apply(
                        pre,
                        all_lines[k as int],
                    ));
                    assert(all_lines.skip(k as int)[0] == all_lines[k as int]);
                    assert(all_lines.skip(k as int).skip(1) =~= all_lines.skip(k as int + 1));
                }
                k += 1;
            }
            proof {
                assert(all_lines.skip(lines@.len() as int) =~= Seq::<Seq<char>>::empty());
            }
        }
    }
    proof {
        if !marked {
            assert(!marker_at(content@, 0));
        }
        assert((name@, description@, version.deep_view()) == fm_fields(content@));
    }

    if name.as_str().is_empty() {
        let lines = split_char(content, '\n');
        let ghost all_lines = views_of(lines@);
        let mut k: usize = 0;
        proof {
            assert(all_lines.skip(0) =~= all_lines);
        }
        while k < lines.len()
            invariant
                k <= lines@.len(),
                all_lines == views_of(lines@),
                all_lines == split_char_spec(content@, '\n'),
                all_lines.len() == lines@.len(),
                name@.len() == 0,
                (name@, description@, version.deep_view()) == fm_fields(content@),
                heading_spec(all_lines) == heading_spec(all_lines.skip(k as int)),
            decreases lines@.len() - k,
        {
            let line = &lines[k];
            if let Some(h) = strip_prefix_str(line.as_str(), "# ") {
                proof {
                    reveal_strlit("# ");
                    assert("# "@ =~= heading_key());
                    assert(all_lines[k as int] == lines@[k as int]@);
                    assert(all_lines.skip(k as int)[0] == all_lines[k as int]);
                    assert(has_prefix(all_lines[k as int], heading_key()));
                    assert(heading_spec(all_lines.skip(k as int)) == trim_spec(
                        all_lines[k as int].skip(2),
                    ));
                }
                let heading = trim_str(h.as_str());
                proof {
                    assert(heading@ == heading_spec(all_lines));
                }
                return (heading, description, version);
            }
            proof {
                reveal_strlit("# ");
                assert("# "@ =~= heading_key());
                assert(all_lines.skip(k as int)[0] == all_lines[k as int]);
                assert(all_lines.skip(k as int).skip(1) =~= all_lines.skip(k as int + 1));
            }
            k += 1;
        }
        proof {
            assert(all_lines.skip(lines@.len() as int) =~= Seq::<Seq<char>>::empty());
        }
    }

    (name, description, version)
}

/// A field value with nothing that the parser strips or trips over: no
/// white space at all, no quote characters, and no dashes.
pub open spec fn plain_field(s: Seq<char>) -> bool {
    forall|i: int|
        0 <= i < s.len() ==> !is_space_char(#[trigger] s[i]) && s[i] != '"' && s[i] != '\''
            && s[i] != '-'
}

/// How a value may be written in a block: bare, double-quoted or
/// single-quoted.
pub open spec fn renders_as(raw: Seq<char>, val: Seq<char>) -> bool {
    raw == val || raw == seq!['"'] + val + seq!['"'] || raw == seq!['\''] + val + seq!['\'']
}

proof fn lemma_unquote_plain(raw: Seq<char>, val: Seq<char>)
    requires
        plain_field(val),
        renders_as(raw, val),
    ensures
        unquote_spec(raw) == val,
{
    if raw == val {
        if val.len() >= 2 {
            assert(val[0] != '"' && val[0] != '\'');
        }
    } else if raw == seq!['"'] + val + seq!['"'] {
        assert(raw.len() == val.len() + 2);
        assert(raw[0] == (seq!['"'] + val)[0]);
        assert(raw[0] == '"');
        assert(raw.last() == '"');
        assert(raw.subrange(1, raw.len() - 1) =~= val);
    } else {
        assert(raw == seq!['\''] + val + seq!['\'']);
        assert(raw.len() == val.len() + 2);
        assert(raw[0] == (seq!['\''] + val)[0]);
        assert(raw[0] == '\'');
        assert(raw.last() == '\'');
        assert(raw.subrange(1, raw.len() - 1) =~= val);
    }
}

/// What one `key value` line of a block parses to: the trimmed line
/// still carries the key as a prefix, and the remainder unquotes to the
/// value.
proof fn lemma_kv_line(key: Seq<char>, raw: Seq<char>, val: Seq<char>)
    requires
        key.len() > 0,
        !is_space_char(key[0]),
        key.last() == ':',
        plain_field(val),
        renders_as(raw, val),
    ensures
        ({
            let t = trim_spec(key + seq![' '] + raw);
            &&& has_prefix(t, key)
            &&& t.len() >= key.len()
            &&& t[0] == key[0]
            &&& unquote_spec(trim_spec(t.skip(key.len() as int))) == val
        }),
{
    let line = key + seq![' '] + raw;
    if raw.len() == 0 {
        assert(val.len() == 0) by {
            if raw != val {
                assert(raw.len() >= 2);
            }
        }
        assert(line =~= key + seq![' ']);
        assert(line[0] == key[0]);
        assert(trim_start_spec(line) == line);
        assert(line.last() == ' ');
        assert(line.drop_last() =~= key);
        assert(trim_end_spec(line) == trim_end_spec(key));
        assert(!is_space_char(':'));
        assert(trim_end_spec(key) == key);
        let t = trim_spec(line);
        assert(t == key);
        assert(key.take(key.len() as int) =~= key);
        assert(has_prefix(t, key));
        assert(key.skip(key.len() as int) =~= Seq::<char>::empty());
        assert(trim_spec(Seq::<char>::empty()) == Seq::<char>::empty());
        assert(unquote_spec(Seq::<char>::empty()) == Seq::<char>::empty());
        assert(val =~= Seq::<char>::empty());
    } else {
        assert(line[0] == key[0]);
        assert(line.last() == raw.last());
        assert(!is_space_char(raw.last())) by {
            if raw == val {
                assert(raw.last() == val[val.len() - 1]);
            } else if raw == seq!['"'] + val + seq!['"'] {
                assert(raw.last() == '"');
                assert(!is_space_char('"'));
            } else {
                assert(raw.last() == '\'');
                assert(!is_space_char('\''));
            }
        }
        lemma_trim_noop(line);
        let t = trim_spec(line);
        assert(t == line);
        assert(line.take(key.len() as int) =~= key);
        assert(has_prefix(t, key));
        assert(line.skip(key.len() as int) =~= seq![' '] + raw);
        assert(raw.len() == 0 || (!is_space_char(raw[0]) && !is_space_char(raw.last()))) by {
            if raw == val {
                assert(raw[0] == val[0]);
            } else if raw == seq!['"'] + val + seq!['"'] {
                assert(raw[0] == (seq!['"'] + val)[0]);
                assert(!is_space_char('"'));
            } else {
                assert(raw[0] == (seq!['\''] + val)[0]);
                assert(!is_space_char('\''));
            }
        }
        lemma_trim_space_prefix(raw);
        lemma_unquote_plain(raw, val);
    }
}

proof fn lemma_find_marker_first(s: Seq<char>, from: int, p: int)
    requires
        0 <= from <= p,
        p + 3 <= s.len(),
        marker_at(s, p),
        forall|i: int| from <= i < p ==> #[trigger] s[i] != '-',
    ensures
        find_marker_from(s, from) == Some(p),
    decreases p - from,
{
    if from < p {
        assert(!marker_at(s, from));
        lemma_find_marker_first(s, from + 1, p);
    }
}

/// Law: frontmatter fallback — content that opens with no block but
/// with a `# ` heading line parses to that heading as the name, an
/// empty description and no version, whether or not anything follows
/// the heading line.
pub proof fn lemma_heading_fallback(head: Seq<char>, rest: Seq<char>)
    requires
        avoids(head, '\n'),
    ensures
        parse_frontmatter_spec(heading_key() + head + seq!['\n'] + rest) == (
            trim_spec(head),
            Seq::<char>::empty(),
            None::<Seq<char>>,
        ),
        parse_frontmatter_spec(heading_key() + head) == (
            trim_spec(head),
            Seq::<char>::empty(),
            None::<Seq<char>>,
        ),
{
    let first = heading_key() + head;
    assert(first[0] == '#');
    assert(avoids(first, '\n')) by {
        assert(avoids(heading_key(), '\n'));
        lemma_avoids_concat(heading_key(), head, '\n');
    }
    assert(first.take(2) =~= heading_key());
    assert(has_prefix(first, heading_key()));
    assert(first.skip(2) =~= head);

    let with_rest = heading_key() + head + seq!['\n'] + rest;
    assert(with_rest[0] == (first + seq!['\n'])[0]);
    assert(with_rest[0] == '#');
    assert(!marker_at(with_rest, 0));
    lemma_split_acc_sep(first, rest, '\n', Seq::<char>::empty());
    let lines = split_char_spec(with_rest, '\n');
    assert(lines == seq![Seq::<char>::empty() + first] + split_acc(
        rest,
        '\n',
        Seq::<char>::empty(),
    ));
    assert(Seq::<char>::empty() + first =~= first);
    assert(lines[0] == first);
    assert(lines.len() > 0);
    assert(heading_spec(lines) == trim_spec(head));

    assert(!marker_at(first, 0));
    lemma_split_acc_no_sep(first, '\n', Seq::<char>::empty());
    let lines2 = split_char_spec(first, '\n');
    assert(lines2 == seq![Seq::<char>::empty() + first]);
    assert(lines2[0] == first);
    assert(heading_spec(lines2) == trim_spec(head));
}

pub open spec fn dash3() -> Seq<char> {
    seq!['-', '-', '-']
}

/// `raw` holds neither newlines nor dashes when it renders a plain value.
proof fn lemma_raw_avoids(raw: Seq<char>, val: Seq<char>, c: char)
    requires
        plain_field(val),
        renders_as(raw, val),
        is_space_char(c) || c == '-',
        c != '"' && c != '\'',
    ensures
        avoids(raw, c),
{
    assert(avoids(val, c)) by {
        assert forall|i: int| 0 <= i < val.len() implies val[i] != c by {
            assert(!is_space_char(val[i]) && val[i] != '-');
        }
    }
    if raw == val {
    } else if raw == seq!['"'] + val + seq!['"'] {
        assert(avoids(seq!['"'], c));
        lemma_avoids_concat(seq!['"'], val, c);
        lemma_avoids_concat(seq!['"'] + val, seq!['"'], c);
    } else {
        assert(avoids(seq!['\''], c));
        lemma_avoids_concat(seq!['\''], val, c);
        lemma_avoids_concat(seq!['\''] + val, seq!['\''], c);
    }
}

/// Law: frontmatter round-trip — a well-formed block whose `name`,
/// `description` and `version` values are written bare, double-quoted
/// or single-quoted parses back to exactly the unquoted values,
/// whatever text follows the closing marker.  The values themselves
/// hold no white space, quotes or dashes, so the rendered block is
/// well-formed.
#[verifier::rlimit(80)]
pub proof fn lemma_frontmatter_round_trip(
    n_raw: Seq<char>,
    n: Seq<char>,
    d_raw: Seq<char>,
    d: Seq<char>,
    v_raw: Seq<char>,
    v: Seq<char>,
    tail: Seq<char>,
)
    requires
        plain_field(n),
        plain_field(d),
        plain_field(v),
        renders_as(n_raw, n),
        renders_as(d_raw, d),
        renders_as(v_raw, v),
        n.len() > 0,
    ensures
        ({
            let block = seq!['\n'] + (name_key() + seq![' '] + n_raw) + seq!['\n'] + (
            description_key() + seq![' '] + d_raw) + seq!['\n'] + (version_key() + seq![' ']
                + v_raw) + seq!['\n'];
            parse_frontmatter_spec(dash3() + block + dash3() + tail) == (n, d, Some(v))
        }),
{
    let nl = name_key() + seq![' '] + n_raw;
    let dl = description_key() + seq![' '] + d_raw;
    let vl = version_key() + seq![' '] + v_raw;
    let block = seq!['\n'] + nl + seq!['\n'] + dl + seq!['\n'] + vl + seq!['\n'];
    let content = dash3() + block + dash3() + tail;

    // No newlines and no dashes inside any rendered line.
    lemma_raw_avoids(n_raw, n, '\n');
    lemma_raw_avoids(d_raw, d, '\n');
    lemma_raw_avoids(v_raw, v, '\n');
    lemma_raw_avoids(n_raw, n, '-');
    lemma_raw_avoids(d_raw, d, '-');
    lemma_raw_avoids(v_raw, v, '-');
    assert(avoids(name_key(), '\n') && avoids(name_key(), '-'));
    assert(avoids(description_key(), '\n') && avoids(description_key(), '-'));
    assert(avoids(version_key(), '\n') && avoids(version_key(), '-'));
    assert(avoids(seq![' '], '\n') && avoids(seq![' '], '-'));
    assert(avoids(seq!['\n'], '-'));
    lemma_avoids_concat(name_key(), seq![' '], '\n');
    lemma_avoids_concat(name_key() + seq![' '], n_raw, '\n');
    lemma_avoids_concat(name_key(), seq![' '], '-');
    lemma_avoids_concat(name_key() + seq![' '], n_raw, '-');
    lemma_avoids_concat(description_key(), seq![' '], '\n');
    lemma_avoids_concat(description_key() + seq![' '], d_raw, '\n');
    lemma_avoids_concat(description_key(), seq![' '], '-');
    lemma_avoids_concat(description_key() + seq![' '], d_raw, '-');
    lemma_avoids_concat(version_key(), seq![' '], '\n');
    lemma_avoids_concat(version_key() + seq![' '], v_raw, '\n');
    lemma_avoids_concat(version_key(), seq![' '], '-');
    lemma_avoids_concat(version_key() + seq![' '], v_raw, '-');

    // The whole block avoids dashes.
    lemma_avoids_concat(seq!['\n'], nl, '-');
    lemma_avoids_concat(seq!['\n'] + nl, seq!['\n'], '-');
    lemma_avoids_concat(seq!['\n'] + nl + seq!['\n'], dl, '-');
    lemma_avoids_concat(seq!['\n'] + nl + seq!['\n'] + dl, seq!['\n'], '-');
    lemma_avoids_concat(seq!['\n'] + nl + seq!['\n'] + dl + seq!['\n'], vl, '-');
    lemma_avoids_concat(seq!['\n'] + nl + seq!['\n'] + dl + seq!['\n'] + vl, seq!['\n'], '-');
    assert(avoids(block, '-'));

    // The opening marker, the closing marker, and nothing between.
    assert(content =~= dash3() + (block + (dash3() + tail)));
    let p = 3 + block.len() as int;
    assert(marker_at(content, 0)) by {
        assert(content[0] == dash3()[0]);
        assert(content[1] == dash3()[1]);
        assert(content[2] == dash3()[2]);
    }
    assert(marker_at(content, p)) by {
        assert(content[p] == (block + (dash3() + tail))[block.len() as int]);
        assert((block + (dash3() + tail))[block.len() as int] == (dash3() + tail)[0]);
        assert(content[p + 1] == (block + (dash3() + tail))[block.len() as int + 1]);
        assert(content[p + 2] == (block + (dash3() + tail))[block.len() as int + 2]);
    }
    assert forall|i: int| 3 <= i < p implies content[i] != '-' by {
        assert(content[i] == (block + (dash3() + tail))[i - 3]);
        assert((block + (dash3() + tail))[i - 3] == block[i - 3]);
    }
    lemma_find_marker_first(content, 3, p);
    assert(content.subrange(3, p) =~= block) by {
        assert forall|i: int| 0 <= i < p - 3 implies content.subrange(3, p)[i] == block[i] by {
            assert(content.subrange(3, p)[i] == content[3 + i]);
            assert(content[3 + i] == (block + (dash3() + tail))[i]);
        }
    }

    // The block splits into its five lines.
    let e: Seq<char> = Seq::empty();
    let r3 = vl + seq!['\n'];
    let r2 = dl + seq!['\n'] + r3;
    let r1 = nl + seq!['\n'] + r2;
    assert(block =~= e + seq!['\n'] + r1);
    assert(avoids(e, '\n'));
    lemma_split_acc_sep(e, r1, '\n', Seq::<char>::empty());
    lemma_split_acc_sep(nl, r2, '\n', Seq::<char>::empty());
    lemma_split_acc_sep(dl, r3, '\n', Seq::<char>::empty());
    assert(r3 =~= vl + seq!['\n'] + e);
    lemma_split_acc_sep(vl, e, '\n', Seq::<char>::empty());
    let lines = split_char_spec(block, '\n');
    let ls = seq![e, nl, dl, vl, e];
    assert(lines =~= ls) by {
        assert(Seq::<char>::empty() + e =~= e);
        assert(Seq::<char>::empty() + nl =~= nl);
        assert(Seq::<char>::empty() + dl =~= dl);
        assert(Seq::<char>::empty() + vl =~= vl);
        assert(split_acc(e, '\n', Seq::<char>::empty()) =~= seq![e]);
    }

    // Walk the five lines.
    let init = (Seq::<char>::empty(), Seq::<char>::empty(), None::<Seq<char>>);
    lemma_kv_line(name_key(), n_raw, n);
    lemma_kv_line(description_key(), d_raw, d);
    lemma_kv_line(version_key(), v_raw, v);
    let t_n = trim_spec(nl);
    let t_d = trim_spec(dl);
    let t_v = trim_spec(vl);
    assert(!has_prefix(t_d, name_key())) by {
        if has_prefix(t_d, name_key()) {
            assert(t_d.take(name_key().len() as int)[0] == name_key()[0]);
            assert(t_d.take(name_key().len() as int)[0] == t_d[0]);
        }
    }
    assert(!has_prefix(t_v, name_key())) by {
        if has_prefix(t_v, name_key()) {
            assert(t_v.take(name_key().len() as int)[0] == name_key()[0]);
            assert(t_v.take(name_key().len() as int)[0] == t_v[0]);
        }
    }
    assert(!has_prefix(t_v, description_key())) by {
        if has_prefix(t_v, description_key()) {
            assert(t_v.take(description_key().len() as int)[0] == description_key()[0]);
            assert(t_v.take(description_key().len() as int)[0] == t_v[0]);
        }
    }
    assert(trim_spec(e) == e);
    assert(!has_prefix(trim_spec(e), name_key()));
    assert(!has_prefix(trim_spec(e), description_key()));
    assert(!has_prefix(trim_spec(e), version_key()));

    let acc1 = fm_line_apply(init, e);
    assert(acc1 == init);
    let acc2 = fm_line_apply(acc1, nl);
    assert(acc2 == (n, Seq::<char>::empty(), None::<Seq<char>>));
    let acc3 = fm_line_apply(acc2, dl);
    assert(acc3 == (n, d, None::<Seq<char>>));
    let acc4 = fm_line_apply(acc3, vl);
    assert(acc4 == (n, d, Some(v)));
    let acc5 = fm_line_apply(acc4, e);
    assert(acc5 == (n, d, Some(v)));

    let s1 = seq![nl, dl, vl, e];
    let s2 = seq![dl, vl, e];
    let s3 = seq![vl, e];
    let s4 = seq![e];
    assert(ls.skip(1) =~= s1);
    assert(s1.skip(1) =~= s2);
    assert(s2.skip(1) =~= s3);
    assert(s3.skip(1) =~= s4);
    assert(s4.skip(1) =~= Seq::<Seq<char>>::empty());
    assert(fm_fold(ls, init) == fm_fold(s1, acc1));
    assert(fm_fold(s1, acc1) == fm_fold(s2, acc2));
    assert(fm_fold(s2, acc2) == fm_fold(s3, acc3));
    assert(fm_fold(s3, acc3) == fm_fold(s4, acc4));
    assert(fm_fold(Seq::<Seq<char>>::empty(), acc5) == acc5);
    assert(fm_fold(s4, acc4) == acc5);

    assert(fm_fields(content) == (n, d, Some(v)));
}

} // verus!
