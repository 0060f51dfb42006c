//! Small tools on sequences of characters: fields, lines, blanks.

use crate::scanner::is_space;
use vstd::prelude::*;
use vstd::string::*;

verus! {

/// Appends one character with `String::push` of std, which adds the
/// character to the end of the string.
#[verifier::external_body]
fn push_char(s: &mut String, c: char)
    ensures
        final(s)@ == old(s)@.push(c),
{
    s.push(c)
}

/// The string of the characters `from..to` of `chars`.
pub fn string_of(chars: &Vec<char>, from: usize, to: usize) -> (s: String)
    requires
        from <= to <= chars@.len(),
    ensures
        s@ == chars@.subrange(from as int, to as int),
{
    let mut s = String::new();
    let mut i: usize = from;
    while i < to
        invariant
            from <= i <= to <= chars@.len(),
            s@ == chars@.subrange(from as int, i as int),
        decreases to - i,
    {
        push_char(&mut s, chars[i]);
        i = i + 1;
        assert(s@ =~= chars@.subrange(from as int, i as int));
    }
    s
}

/// `s` without its blanks.
pub open spec fn without_blanks(s: Seq<char>) -> Seq<char>
    decreases s.len(),
{
    if s.len() == 0 {
        s
    } else if is_space(s.last()) {
        without_blanks(s.drop_last())
    } else {
        without_blanks(s.drop_last()).push(s.last())
    }
}

/// A copy of `chars` without its blanks.
pub fn strip_blanks(chars: &Vec<char>) -> (r: Vec<char>)
    ensures
        r@ == without_blanks(chars@),
{
    let mut r: Vec<char> = Vec::new();
    let mut i: usize = 0;
    while i < chars.len()
        invariant
            i <= chars@.len(),
            r@ == without_blanks(chars@.subrange(0, i as int)),
        decreases chars@.len() - i,
    {
        let c = chars[i];
        assert(chars@.subrange(0, i + 1).drop_last() =~= chars@.subrange(0, i as int));
        if !(c == ' ' || c == '\t' || c == '\r' || c == '\n') {
            r.push(c);
        }
        i = i + 1;
    }
    assert(chars@.subrange(0, chars@.len() as int) =~= chars@);
    r
}

/// The fields of `s` between the separators `sep`: one more than there are
/// separators, so that the empty text has one empty field.
pub open spec fn fields(s: Seq<char>, sep: char) -> Seq<Seq<char>>
    decreases s.len(),
{
    if s.len() == 0 {
        seq![Seq::empty()]
    } else {
        let before = fields(s.drop_last(), sep);
        if s.last() == sep {
            before.push(Seq::empty())
        } else {
            before.drop_last().push(before.last().push(s.last()))
        }
    }
}

/// The views of the vectors of `v`.
pub open spec fn views(v: Seq<Vec<char>>) -> Seq<Seq<char>> {
    Seq::new(v.len(), |i: int| v[i]@)
}

/// There is always a field.
pub proof fn lemma_fields_nonempty(s: Seq<char>, sep: char)
    ensures
        fields(s, sep).len() >= 1,
    decreases s.len(),
{
    if s.len() > 0 {
        lemma_fields_nonempty(s.drop_last(), sep);
    }
}

/// Splits the characters `from..to` of `chars` at the separators `sep`.
pub fn split(chars: &Vec<char>, from: usize, to: usize, sep: char) -> (r: Vec<Vec<char>>)
    requires
        from <= to <= chars@.len(),
    ensures
        views(r@) == fields(chars@.subrange(from as int, to as int), sep),
{
    let mut done: Vec<Vec<char>> = Vec::new();
    let mut current: Vec<char> = Vec::new();
    let mut i: usize = from;
    assert(chars@.subrange(from as int, from as int) =~= Seq::empty());
    assert(views(done@).push(current@) =~= seq![Seq::<char>::empty()]);
    while i < to
        invariant
            from <= i <= to <= chars@.len(),
            views(done@).push(current@) == fields(chars@.subrange(from as int, i as int), sep),
        decreases to - i,
    {
        let c = chars[i];
        let ghost so_far = chars@.subrange(from as int, i as int);
        let ghost next = chars@.subrange(from as int, i + 1);
        assert(next.drop_last() =~= so_far);
        assert(next.last() == c);
        let ghost before = views(done@).push(current@);
        if c == sep {
            let ghost d0 = done@;
            let ghost c0 = current@;
            done.push(current);
            current = Vec::new();
            assert(views(done@) =~= views(d0).push(c0));
            assert(views(done@).push(current@) =~= before.push(Seq::empty()));
        } else {
            let ghost c0 = current@;
            current.push(c);
            assert(before.drop_last() =~= views(done@));
            assert(views(done@).push(current@) =~= before.drop_last().push(before.last().push(c)));
        }
        i = i + 1;
    }
    let ghost d0 = done@;
    let ghost c0 = current@;
    done.push(current);
    assert(views(done@) =~= views(d0).push(c0));
    done
}

/// A line without the carriage return at its end, if it has one.
pub open spec fn chomp(line: Seq<char>) -> Seq<char> {
    if line.len() > 0 && line.last() == '\r' {
        line.drop_last()
    } else {
        line
    }
}

/// The lines of a text: what stands between its line feeds, without the
/// carriage return before a line feed, and without the empty rest behind
/// the last line feed.
pub open spec fn lines(text: Seq<char>) -> Seq<Seq<char>> {
    let all = fields(text, '\n');
    let kept = if all.last().len() == 0 {
        all.drop_last()
    } else {
        all
    };
    Seq::new(kept.len(), |i: int| chomp(kept[i]))
}

/// The lines of `chars`.
pub fn split_lines(chars: &Vec<char>) -> (r: Vec<Vec<char>>)
    ensures
        views(r@) == lines(chars@),
{
    let mut all = split(chars, 0, chars.len(), '\n');
    assert(chars@.subrange(0, chars@.len() as int) =~= chars@);
    proof {
        lemma_fields_nonempty(chars@, '\n');
    }
    let ghost kept = if fields(chars@, '\n').last().len() == 0 {
        fields(chars@, '\n').drop_last()
    } else {
        fields(chars@, '\n')
    };
    let n = all.len();
    assert(views(all@)[n - 1] == all@[n - 1]@);
    if all[n - 1].len() == 0 {
        let ghost a0 = all@;
        let _last = all.pop();
        assert(views(all@) =~= views(a0).drop_last());
    }
    assert(views(all@) == kept);
    let mut r: Vec<Vec<char>> = Vec::new();
    let mut i: usize = 0;
    while i < all.len()
        invariant
            i <= all@.len(),
            views(all@) == kept,
            r@.len() == i,
            forall|j: int| 0 <= j < i ==> (#[trigger] r@[j])@ == chomp(kept[j]),
        decreases all@.len() - i,
    {
        let line = &all[i];
        assert(views(all@)[i as int] == line@);
        let len = line.len();
        let mut copy: Vec<char> = Vec::new();
        let keep = if len > 0 && line[len - 1] == '\r' {
            len - 1
        } else {
            len
        };
        let mut j: usize = 0;
        while j < keep
            invariant
                j <= keep <= line@.len(),
                copy@ == line@.subrange(0, j as int),
            decreases keep - j,
        {
            copy.push(line[j]);
            j = j + 1;
            assert(copy@ =~= line@.subrange(0, j as int));
        }
        assert(copy@ =~= chomp(line@));
        r.push(copy);
        i = i + 1;
    }
    assert(views(r@) =~= lines(chars@));
    r
}

/// `c` occurs in `s`.
pub open spec fn has_char(s: Seq<char>, c: char) -> bool {
    exists|i: int| 0 <= i < s.len() && #[trigger] s[i] == c
}

/// Whether `c` occurs in `chars`.
pub fn contains_char(chars: &Vec<char>, c: char) -> (r: bool)
    ensures
        r == has_char(chars@, c),
{
    let mut i: usize = 0;
    while i < chars.len()
        invariant
            i <= chars@.len(),
            forall|j: int| 0 <= j < i ==> chars@[j] != c,
        decreases chars@.len() - i,
    {
        if chars[i] == c {
            return true;
        }
        i = i + 1;
    }
    false
}

} // verus!
