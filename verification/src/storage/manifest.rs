//! The list of live segments, kept as a text file with one name on each line.
use crate::text::{
    blank, chars_of, is_white_space, string_of, trim_bounds, trim_end, trim_start, trimmed,
    white_space_behind_is_trimmed, white_space_in_front_is_trimmed,
};
use vstd::prelude::*;
use vstd::string::*;

verus! {

/// Where the first line of a text ends.
pub open spec fn line_end(text: Seq<char>) -> int
    decreases text.len(),
{
    if text.len() == 0 || text[0] == '\n' {
        0
    } else {
        1 + line_end(text.skip(1))
    }
}

/// The names in a manifest: its lines without the white space around them,
/// except those on which nothing is left.
pub open spec fn names_in(text: Seq<char>) -> Seq<Seq<char>>
    decreases text.len(),
{
    if text.len() == 0 {
        seq![]
    } else {
        let end = line_end(text);
        let name = trimmed(text.take(end));
        let rest = if 0 <= end < text.len() {
            names_in(text.skip(end + 1))
        } else {
            seq![]
        };
        if name.len() == 0 {
            rest
        } else {
            seq![name] + rest
        }
    }
}

/// The text of a manifest with the given names.
pub open spec fn manifest_text(names: Seq<Seq<char>>) -> Seq<char>
    decreases names.len(),
{
    if names.len() == 0 {
        seq![]
    } else {
        manifest_text(names.drop_last()) + names.last().push('\n')
    }
}

/// The name stands on a line as it is: it is not empty, is all on one line, and
/// has no white space at its ends.
pub open spec fn plain_name(name: Seq<char>) -> bool {
    &&& name.len() > 0
    &&& !name.contains('\n')
    &&& !is_white_space(name[0])
    &&& !is_white_space(name.last())
}

/// What strings hold.
pub open spec fn texts(strings: Seq<String>) -> Seq<Seq<char>> {
    strings.map_values(|s: String| s@)
}

pub struct Manifest {
    segments: Vec<String>,
}

impl View for Manifest {
    type V = Seq<Seq<char>>;

    closed spec fn view(&self) -> Seq<Seq<char>> {
        texts(self.segments@)
    }
}

impl Manifest {
    /// Takes up the text of the manifest file, where there is one.
    pub fn open(text: Option<&str>) -> (m: Self)
        ensures
            m@ == match text {
                Some(t) => names_in(t@),
                None => seq![],
            },
    {
        let segments: Vec<String> = match text {
            Some(t) => parse_names(t),
            None => Vec::new(),
        };
        assert(texts(segments@) =~= match text {
            Some(t) => names_in(t@),
            None => seq![],
        });
        Manifest { segments }
    }

    /// The names of the live segments.
    pub fn segments(&self) -> (names: &[String])
        ensures
            texts(names@) == self@,
    {
        self.segments.as_slice()
    }

    /// Adds a name; the result is the text that the file is to hold.
    pub fn add(&mut self, name: &str) -> (text: String)
        ensures
            final(self)@ == old(self)@.push(name@),
            text@ == manifest_text(old(self)@.push(name@)),
    {
        self.segments.push(String::from_str(name));
        assert(self@ =~= old(self)@.push(name@));
        self.persist()
    }

    /// Replaces all names; the result is the text that the file is to hold.
    pub fn replace(&mut self, names: Vec<String>) -> (text: String)
        ensures
            final(self)@ == texts(names@),
            text@ == manifest_text(texts(names@)),
    {
        self.segments = names;
        self.persist()
    }

    /// The text that the file is to hold: each name on a line.
    fn persist(&self) -> (text: String)
        ensures
            text@ == manifest_text(self@),
    {
        let mut text = String::new();
        let mut i: usize = 0;
        assert(text@ =~= manifest_text(self@.take(0)));
        while i < self.segments.len()
            invariant
                i <= self.segments@.len(),
                self@.len() == self.segments@.len(),
                text@ == manifest_text(self@.take(i as int)),
            decreases self.segments@.len() - i,
        {
            text.append(self.segments[i].as_str());
            text.push('\n');
            proof {
                let grown = self@.take(i + 1);
                assert(grown.drop_last() =~= self@.take(i as int));
                assert(grown.last() == self.segments@[i as int]@);
                assert(text@ =~= manifest_text(grown));
            }
            i = i + 1;
        }
        assert(self@.take(i as int) =~= self@);
        text
    }
}

/// The end of a line lies within the text, with no line break before it.
proof fn lemma_line_end(text: Seq<char>, k: int)
    requires
        0 <= k <= text.len(),
        forall|i: int| 0 <= i < k ==> text[i] != '\n',
        k == text.len() || text[k] == '\n',
    ensures
        line_end(text) == k,
    decreases k,
{
    if k > 0 {
        let rest = text.skip(1);
        assert forall|i: int| 0 <= i < k - 1 implies rest[i] != '\n' by {
            assert(rest[i] == text[i + 1]);
        }
        lemma_line_end(rest, k - 1);
    }
}

/// The names of a text whose first line ends at a known place.
proof fn lemma_names_step(text: Seq<char>, k: int)
    requires
        0 <= k <= text.len(),
        text.len() > 0,
        line_end(text) == k,
    ensures
        names_in(text) == (if trimmed(text.take(k)).len() == 0 {
            seq![]
        } else {
            seq![trimmed(text.take(k))]
        }) + (if k < text.len() {
            names_in(text.skip(k + 1))
        } else {
            seq![]
        }),
{
    reveal_with_fuel(names_in, 2);
    assert(names_in(text) =~= (if trimmed(text.take(k)).len() == 0 {
        seq![]
    } else {
        seq![trimmed(text.take(k))]
    }) + (if k < text.len() {
        names_in(text.skip(k + 1))
    } else {
        seq![]
    }));
}

/// Splits the text of a manifest into names.
fn parse_names(text: &str) -> (names: Vec<String>)
    ensures
        texts(names@) == names_in(text@),
{
    let chars = chars_of(text);
    let mut names: Vec<String> = Vec::new();
    let mut pos: usize = 0;
    assert(text@.skip(0) =~= text@);
    assert(texts(names@) + names_in(text@) =~= names_in(text@));
    while pos < chars.len()
        invariant
            chars@ == text@,
            pos <= chars@.len(),
            texts(names@) + names_in(text@.skip(pos as int)) == names_in(text@),
        decreases chars@.len() - pos,
    {
        let ghost rest = text@.skip(pos as int);
        let mut end: usize = pos;
        while end < chars.len() && chars[end] != '\n'
            invariant
                chars@ == text@,
                pos <= end <= chars@.len(),
                forall|i: int| pos <= i < end ==> chars@[i] != '\n',
            decreases chars@.len() - end,
        {
            end = end + 1;
        }
        proof {
            let k = end - pos;
            assert forall|i: int| 0 <= i < k implies rest[i] != '\n' by {
                assert(rest[i] == chars@[pos + i]);
            }
            lemma_line_end(rest, k);
            lemma_names_step(rest, k);
            assert(rest.take(k) =~= chars@.subrange(pos as int, end as int));
            if k < rest.len() {
                assert(rest.skip(k + 1) =~= text@.skip(end + 1));
            }
        }
        let (lo, hi) = trim_bounds(chars.as_slice(), pos, end);
        let ghost before = texts(names@);
        if lo < hi {
            let name = string_of(chars.as_slice(), lo, hi);
            names.push(name);
            assert(texts(names@) =~= before.push(trimmed(rest.take(end - pos))));
        }
        let ghost tail = if end < chars@.len() {
            names_in(text@.skip(end + 1))
        } else {
            seq![]
        };
        assert(texts(names@) + tail =~= before + names_in(rest));
        if end == chars.len() {
            assert(texts(names@) =~= texts(names@) + tail);
            return names;
        }
        pos = end + 1;
    }
    assert(text@.skip(pos as int) =~= Seq::<char>::empty());
    assert(texts(names@) + names_in(text@.skip(pos as int)) =~= texts(names@));
    names
}

/// What trimming at the beginning leaves is a part of the text, without white
/// space in front.
proof fn lemma_trim_start(s: Seq<char>)
    ensures
        trim_start(s).len() > 0 ==> !is_white_space(trim_start(s)[0]),
        forall|c: char| #[trigger] trim_start(s).contains(c) ==> s.contains(c),
    decreases s.len(),
{
    if s.len() > 0 && is_white_space(s[0]) {
        lemma_trim_start(s.skip(1));
        assert forall|c: char| #[trigger] trim_start(s).contains(c) implies s.contains(c) by {
            assert(s.skip(1).contains(c));
            let i = choose|i: int| 0 <= i < s.skip(1).len() && s.skip(1)[i] == c;
            assert(s[i + 1] == c);
        }
    }
}

/// What trimming at the end leaves is a part of the text with the same beginning,
/// without white space behind.
proof fn lemma_trim_end(s: Seq<char>)
    ensures
        trim_end(s).len() > 0 ==> !is_white_space(trim_end(s).last()) && trim_end(s)[0] == s[0],
        forall|c: char| #[trigger] trim_end(s).contains(c) ==> s.contains(c),
    decreases s.len(),
{
    if s.len() > 0 && is_white_space(s.last()) {
        lemma_trim_end(s.drop_last());
        assert forall|c: char| #[trigger] trim_end(s).contains(c) implies s.contains(c) by {
            assert(s.drop_last().contains(c));
            let i = choose|i: int| 0 <= i < s.drop_last().len() && s.drop_last()[i] == c;
            assert(s[i] == c);
        }
    }
}

/// The first line ends within the text and has no line break in it.
proof fn lemma_line_end_bounds(text: Seq<char>)
    ensures
        0 <= line_end(text) <= text.len(),
        forall|i: int| 0 <= i < line_end(text) ==> text[i] != '\n',
    decreases text.len(),
{
    if text.len() > 0 && text[0] != '\n' {
        lemma_line_end_bounds(text.skip(1));
        assert forall|i: int| 0 <= i < line_end(text) implies text[i] != '\n' by {
            if i > 0 {
                assert(text.skip(1)[i - 1] == text[i]);
            }
        }
    }
}

/// The names in a manifest are plain.
pub proof fn lemma_names_plain(text: Seq<char>)
    ensures
        forall|k: int| 0 <= k < names_in(text).len() ==> plain_name(#[trigger] names_in(text)[k]),
    decreases text.len(),
{
    if text.len() > 0 {
        let end = line_end(text);
        lemma_line_end_bounds(text);
        let line = text.take(end);
        let name = trimmed(line);
        lemma_trim_start(line);
        lemma_trim_end(trim_start(line));
        if name.len() > 0 && name.contains('\n') {
            assert(trim_start(line).contains('\n'));
            assert(line.contains('\n'));
            let i = choose|i: int| 0 <= i < line.len() && line[i] == '\n';
            assert(text[i] == '\n');
        }
        lemma_names_step(text, end);
        if end < text.len() {
            lemma_names_plain(text.skip(end + 1));
        }
        assert forall|k: int| 0 <= k < names_in(text).len() implies plain_name(
            #[trigger] names_in(text)[k],
        ) by {
            let skipped: int = if name.len() == 0 {
                0
            } else {
                1
            };
            if k >= skipped {
                assert(end < text.len());
                assert(names_in(text)[k] == names_in(text.skip(end + 1))[k - skipped]);
            }
        }
    }
}

/// A plain name is left as it is by trimming.
proof fn lemma_plain_trimmed(name: Seq<char>)
    requires
        plain_name(name),
    ensures
        trimmed(name) == name,
{
}

/// The names in two texts, one behind the other, where the first ends a line.
proof fn lemma_names_concat(a: Seq<char>, b: Seq<char>)
    requires
        a.len() == 0 || a.last() == '\n',
    ensures
        names_in(a + b) == names_in(a) + names_in(b),
    decreases a.len(),
{
    if a.len() == 0 {
        assert(a + b =~= b);
        assert(names_in(a) + names_in(b) =~= names_in(b));
    } else {
        let k = first_break(a, 0);
        let ab = a + b;
        lemma_line_end(a, k);
        assert forall|i: int| 0 <= i < k implies ab[i] != '\n' by {
            assert(ab[i] == a[i]);
        }
        lemma_line_end(ab, k);
        lemma_names_step(a, k);
        lemma_names_step(ab, k);
        assert(ab.take(k) =~= a.take(k));
        assert(ab.skip(k + 1) =~= a.skip(k + 1) + b);
        lemma_names_concat(a.skip(k + 1), b);
        let name = trimmed(a.take(k));
        assert(names_in(ab) =~= names_in(a) + names_in(b));
    }
}

/// A text that ends with a line break has a first one.
proof fn first_break(a: Seq<char>, from: int) -> (k: int)
    requires
        0 <= from < a.len(),
        a.last() == '\n',
        forall|i: int| 0 <= i < from ==> a[i] != '\n',
    ensures
        from <= k < a.len(),
        a[k] == '\n',
        forall|i: int| 0 <= i < k ==> a[i] != '\n',
    decreases a.len() - from,
{
    if a[from] == '\n' {
        from
    } else {
        first_break(a, from + 1)
    }
}

/// Reading the text of a manifest gives the names that it was made from.
pub proof fn manifest_reads_back(names: Seq<Seq<char>>)
    requires
        forall|i: int| 0 <= i < names.len() ==> plain_name(#[trigger] names[i]),
    ensures
        names_in(manifest_text(names)) == names,
    decreases names.len(),
{
    if names.len() > 0 {
        let init = names.drop_last();
        assert forall|i: int| 0 <= i < init.len() implies plain_name(#[trigger] init[i]) by {
            assert(init[i] == names[i]);
        }
        manifest_reads_back(init);
        let name = names.last();
        assert(plain_name(names[names.len() - 1]));
        let line = name.push('\n');
        if init.len() > 0 {
            assert(manifest_text(init).last() == '\n');
        }
        lemma_names_concat(manifest_text(init), line);
        assert forall|i: int| 0 <= i < name.len() implies line[i] != '\n' by {
            assert(line[i] == name[i]);
            assert(name.contains(name[i]));
        }
        lemma_line_end(line, name.len() as int);
        lemma_names_step(line, name.len() as int);
        assert(line.take(name.len() as int) =~= name);
        lemma_plain_trimmed(name);
        assert(line.skip(name.len() as int + 1) =~= Seq::<char>::empty());
        assert(names_in(line) =~= seq![name]);
        assert(init + seq![name] =~= names);
    }
}

/// Lines are read one by one: what stands behind a line break does not change what is
/// read before it, and the other way round.
pub proof fn lines_are_read_one_by_one(a: Seq<char>, b: Seq<char>)
    ensures
        names_in(a.push('\n') + b) == names_in(a.push('\n')) + names_in(b),
{
    lemma_names_concat(a.push('\n'), b);
}

/// A line gives the name on it without the white space around it, with a line break behind
/// it or without; a line of white space gives none.
pub proof fn line_gives_its_name(lead: Seq<char>, name: Seq<char>, rest: Seq<char>)
    requires
        blank(lead),
        blank(rest),
        !lead.contains('\n'),
        !rest.contains('\n'),
        plain_name(name),
    ensures
        names_in(lead + name + rest) == seq![name],
        names_in((lead + name + rest).push('\n')) == seq![name],
        names_in(lead) == Seq::<Seq<char>>::empty(),
        names_in(lead.push('\n')) == Seq::<Seq<char>>::empty(),
{
    let line = lead + name + rest;
    assert forall|i: int| 0 <= i < line.len() implies line[i] != '\n' by {
        if i < lead.len() {
            assert(lead.contains(lead[i]));
        } else if i < lead.len() + name.len() {
            assert(name.contains(name[i - lead.len()]));
            assert(line[i] == name[i - lead.len()]);
        } else {
            assert(rest.contains(rest[i - lead.len() - name.len()]));
            assert(line[i] == rest[i - lead.len() - name.len()]);
        }
    }
    assert forall|i: int| 0 <= i < lead.len() implies lead[i] != '\n' by {
        assert(lead.contains(lead[i]));
    }
    assert(line =~= lead + (name + rest));
    assert((name + rest)[0] == name[0]);
    white_space_in_front_is_trimmed(lead, name + rest);
    white_space_behind_is_trimmed(name, rest);
    assert(trimmed(line) == name);
    assert(lead + Seq::<char>::empty() =~= lead);
    white_space_in_front_is_trimmed(lead, seq![]);
    lemma_one_line(line);
    lemma_one_line(lead);
}

/// What a single line gives.
proof fn lemma_one_line(line: Seq<char>)
    requires
        forall|i: int| 0 <= i < line.len() ==> line[i] != '\n',
    ensures
        names_in(line) == if trimmed(line).len() == 0 {
            seq![]
        } else {
            seq![trimmed(line)]
        },
        names_in(line.push('\n')) == names_in(line),
{
    let n = line.len() as int;
    let broken = line.push('\n');
    assert forall|i: int| 0 <= i < n implies broken[i] != '\n' by {
        assert(broken[i] == line[i]);
    }
    lemma_line_end(broken, n);
    lemma_names_step(broken, n);
    assert(broken.take(n) =~= line);
    assert(broken.skip(n + 1) =~= Seq::<char>::empty());
    if n > 0 {
        lemma_line_end(line, n);
        lemma_names_step(line, n);
        assert(line.take(n) =~= line);
    }
    assert(names_in(broken) =~= names_in(line));
}

/// Each name stands on a line of its own, as it is.
pub proof fn names_stand_on_lines(a: Seq<Seq<char>>, name: Seq<char>, b: Seq<Seq<char>>)
    ensures
        manifest_text(a + b) == manifest_text(a) + manifest_text(b),
        manifest_text(seq![name]) == name.push('\n'),
        manifest_text(Seq::<Seq<char>>::empty()) == Seq::<char>::empty(),
    decreases b.len(),
{
    assert(seq![name].drop_last() =~= Seq::<Seq<char>>::empty());
    reveal_with_fuel(manifest_text, 2);
    assert(manifest_text(seq![name]) =~= name.push('\n'));
    if b.len() == 0 {
        assert(a + b =~= a);
        assert(manifest_text(a) + manifest_text(b) =~= manifest_text(a));
    } else {
        names_stand_on_lines(a, name, b.drop_last());
        assert((a + b).drop_last() =~= a + b.drop_last());
        assert(manifest_text(a + b) =~= manifest_text(a) + manifest_text(b));
    }
}

/// Each text counts once, in its place.
pub proof fn texts_hold_every_string(v: Seq<String>)
    ensures
        texts(v).len() == v.len(),
        forall|i: int| 0 <= i < v.len() ==> #[trigger] texts(v)[i] == v[i]@,
{
}

/// What a manifest was told to hold is what is read from the text that it gave, as long as
/// the names are plain: those that it had, and the new one behind them, or the new ones in
/// their place.
pub proof fn open_inverts_add(
    m: &mut Manifest,
    name: &str,
    text: String,
    again: &str,
    back: Manifest,
)
    requires
        call_ensures(Manifest::add, (m, name), text),
        call_ensures(Manifest::open, (Some(again),), back),
        again@ == text@,
        plain_name(name@),
        forall|i: int| 0 <= i < old(m)@.len() ==> plain_name(#[trigger] old(m)@[i]),
    ensures
        final(m)@ == old(m)@.push(name@),
        back@ == final(m)@,
{
    let names = old(m)@.push(name@);
    assert forall|i: int| 0 <= i < names.len() implies plain_name(#[trigger] names[i]) by {
        if i < old(m)@.len() {
            assert(names[i] == old(m)@[i]);
        }
    }
    manifest_reads_back(names);
}

/// The same where all names are replaced; and a manifest without a file has none.
pub proof fn open_inverts_replace(
    m: &mut Manifest,
    names: Vec<String>,
    text: String,
    again: &str,
    back: Manifest,
    shown: &[String],
    none: Manifest,
)
    requires
        call_ensures(Manifest::replace, (m, names), text),
        call_ensures(Manifest::open, (Some(again),), back),
        call_ensures(Manifest::segments, (&back,), shown),
        call_ensures(Manifest::open, (None::<&str>,), none),
        again@ == text@,
        forall|i: int| 0 <= i < names@.len() ==> plain_name((#[trigger] names@[i])@),
    ensures
        final(m)@ == back@,
        shown@.len() == names@.len(),
        forall|i: int| 0 <= i < names@.len() ==> (#[trigger] shown@[i])@ == names@[i]@,
        none@.len() == 0,
{
    let wanted = texts(names@);
    assert forall|i: int| 0 <= i < wanted.len() implies plain_name(#[trigger] wanted[i]) by {
        assert(wanted[i] == names@[i]@);
    }
    manifest_reads_back(wanted);
    assert(texts(shown@) == wanted);
    assert(texts(shown@).len() == shown@.len());
    assert forall|i: int| 0 <= i < names@.len() implies (#[trigger] shown@[i])@ == names@[i]@ by {
        assert(texts(shown@)[i] == wanted[i]);
    }
}

} // verus!
