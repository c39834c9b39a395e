//! The documentation that an object carries at the head of its own file.
//!
//! The block of comments that a file opens with is what it says about itself.
//! It ends at the first line that is neither a comment nor blank, and a
//! shebang is not part of it.

use vstd::prelude::*;

use crate::document;
use crate::text;

verus! {

/// What a line says as part of a header: nothing when it is blank, the comment
/// without its sign and one space, or that the header is over.
pub open spec fn header_line(line: Seq<char>) -> Option<Seq<char>> {
    let t = text::trim_start(line);
    if t.len() == 0 {
        Some(Seq::empty())
    } else if t[0] != '#' {
        None
    } else if t.len() > 1 && t[1] == ' ' {
        Some(t.subrange(2, t.len() as int))
    } else {
        Some(t.drop_first())
    }
}

/// The header that a run of lines opens with.
pub open spec fn header_block(lines: Seq<Seq<char>>) -> Seq<Seq<char>>
    decreases lines.len(),
{
    if lines.len() == 0 {
        Seq::empty()
    } else {
        match header_line(lines[0]) {
            None => Seq::empty(),
            Some(text) => seq![text] + header_block(lines.drop_first()),
        }
    }
}

/// The lines of a file that can be part of its header.
pub open spec fn head_lines(body: Seq<char>) -> Seq<Seq<char>> {
    let all = text::lines(body);
    if all.len() > 0 && text::begins(all[0], "#!"@) {
        all.drop_first()
    } else {
        all
    }
}

/// Lines without the blank ones that they begin with.
pub open spec fn from_first_said(lines: Seq<Seq<char>>) -> Seq<Seq<char>>
    decreases lines.len(),
{
    if lines.len() > 0 && lines[0].len() == 0 {
        from_first_said(lines.drop_first())
    } else {
        lines
    }
}

/// Lines without the blank ones that they end with.
pub open spec fn to_last_said(lines: Seq<Seq<char>>) -> Seq<Seq<char>>
    decreases lines.len(),
{
    if lines.len() > 0 && lines.last().len() == 0 {
        to_last_said(lines.drop_last())
    } else {
        lines
    }
}

/// The documentation that a file opens with, if it opens with any.
pub open spec fn documentation(body: Seq<char>) -> Option<Seq<char>> {
    let said = to_last_said(from_first_said(header_block(head_lines(body))));
    if said.len() == 0 {
        None
    } else {
        Some(text::join(said, "\n"@) + "\n"@)
    }
}

/// What a line says as part of a header.
fn read_line(line: &str) -> (r: Option<String>)
    ensures
        text::text_of(r) == header_line(line@),
{
    let t = text::trimmed_start(line);
    let cs = text::chars_of(t.as_str());
    if cs.len() == 0 {
        return Some(String::new());
    }
    if cs[0] != '#' {
        return None;
    }
    if cs.len() > 1 && cs[1] == ' ' {
        Some(text::string_of(&cs, 2, cs.len()))
    } else {
        let r = text::string_of(&cs, 1, cs.len());
        assert(r@ =~= cs@.drop_first());
        Some(r)
    }
}

/// The block of comments that a document opens with, with the comment sign
/// taken off, or nothing when it opens with something else.  The lines keep
/// their order, their indentation past the sign, and the blank lines between
/// them.
pub fn extract(body: &str) -> (r: Option<String>)
    ensures
        text::text_of(r) == documentation(body@),
{
    let all = text::lines_of(body);
    let ghost lines = text::lines(body@);
    assert(lines.len() == all@.len());
    let mut i: usize = 0;
    if all.len() > 0 {
        assert(lines[0] == all@[0]@);
        if text::starts(all[0].as_str(), "#!") {
            i = 1;
        }
    }
    let ghost head = head_lines(body@);
    let ghost from = i;
    let mut block: Vec<String> = Vec::new();
    assert(lines.skip(i as int) =~= head);
    assert(text::texts(block@) + header_block(lines.skip(i as int)) =~= header_block(head));
    let mut open: bool = true;
    while open && i < all.len()
        invariant
            i <= all@.len(),
            lines == text::texts(all@),
            open ==> text::texts(block@) + header_block(lines.skip(i as int)) == header_block(head),
            !open ==> text::texts(block@) == header_block(head),
        decreases all@.len() - i + if open { 1int } else { 0int },
    {
        let ghost left = lines.skip(i as int);
        assert(left[0] == all@[i as int]@);
        assert(left.drop_first() =~= lines.skip(i + 1));
        match read_line(all[i].as_str()) {
            None => {
                open = false;
                assert(text::texts(block@) + header_block(left) =~= text::texts(block@));
            },
            Some(text) => {
                let ghost was = text::texts(block@);
                let ghost said = text@;
                block.push(text);
                assert(text::texts(block@) =~= was.push(said));
                assert(was + header_block(left) =~= was.push(said) + header_block(
                    lines.skip(i + 1),
                ));
                i += 1;
            },
        }
    }
    proof {
        if open {
            assert(lines.skip(i as int) =~= Seq::empty());
            assert(text::texts(block@) + header_block(lines.skip(i as int)) =~= text::texts(block@));
        }
    }
    let ghost said = text::texts(block@);
    let mut start: usize = 0;
    assert(said.skip(0) =~= said);
    while start < block.len() && text::chars_of(block[start].as_str()).len() == 0
        invariant
            start <= block@.len(),
            said == text::texts(block@),
            from_first_said(said.skip(start as int)) == from_first_said(said),
        decreases block@.len() - start,
    {
        assert(said.skip(start as int)[0] == block@[start as int]@);
        assert(said.skip(start as int).drop_first() =~= said.skip(start + 1));
        start += 1;
    }
    proof {
        if start < block@.len() {
            assert(said.skip(start as int)[0] == block@[start as int]@);
        }
    }
    let ghost begun = said.skip(start as int);
    assert(from_first_said(said) == begun);
    let mut end: usize = block.len();
    assert(begun.take(end - start) =~= begun);
    while end > start && text::chars_of(block[end - 1].as_str()).len() == 0
        invariant
            start <= end <= block@.len(),
            said == text::texts(block@),
            begun == said.skip(start as int),
            to_last_said(begun.take(end - start)) == to_last_said(begun),
        decreases end,
    {
        assert(begun.take(end - start).last() == block@[end - 1]@);
        assert(begun.take(end - start).drop_last() =~= begun.take(end - start - 1));
        end -= 1;
    }
    let ghost kept = begun.take(end - start);
    proof {
        if end > start {
            assert(kept.last() == block@[end - 1]@);
        }
        assert(to_last_said(begun) == kept);
    }
    if start == end {
        return None;
    }
    let mut part: Vec<String> = Vec::new();
    let mut n: usize = start;
    while n < end
        invariant
            start <= n <= end <= block@.len(),
            part@.len() == n - start,
            forall|j: int| 0 <= j < part@.len() ==> (#[trigger] part@[j])@ == block@[start + j]@,
        decreases end - n,
    {
        part.push(block[n].clone());
        n += 1;
    }
    assert(text::texts(part@) =~= kept);
    let mut r = text::joined(&part, "\n");
    r.append("\n");
    Some(r)
}

/// The documentation of a file, by what reading it gave: the bytes that it
/// holds, or why it cannot be read.
pub open spec fn documented(path: Seq<char>, content: Result<Vec<u8>, String>) -> Result<
    Seq<char>,
    Seq<char>,
> {
    match content {
        Err(e) => Err("Cannot read "@ + path + ": "@ + e@),
        Ok(bytes) => match text::decoded(bytes@) {
            None => Err(
                path
                    + " is a compiled program and not text, so there is nothing written at the head of it"@,
            ),
            Some(body) => match documentation(body) {
                Some(doc) => Ok(doc),
                None => Err(
                    path
                        + " says nothing about itself; the documentation of an object is the block of comments it starts with"@,
                ),
            },
        },
    }
}

/// The documentation at the head of a file, or the reason there is none.
pub fn header(path: &str, content: Result<Vec<u8>, String>) -> (r: Result<String, String>)
    ensures
        document::writing(r) == documented(path@, content),
{
    match content {
        Err(e) => {
            let mut message = "Cannot read ".to_owned();
            message.append(path);
            message.append(": ");
            message.append(e.as_str());
            Err(message)
        },
        Ok(bytes) => match text::from_utf8(bytes) {
            Err(_) => {
                let mut message = path.to_owned();
                message.append(
                    " is a compiled program and not text, so there is nothing written at the head of it",
                );
                Err(message)
            },
            Ok(body) => match extract(body.as_str()) {
                Some(doc) => Ok(doc),
                None => {
                    let mut message = path.to_owned();
                    message.append(
                        " says nothing about itself; the documentation of an object is the block of comments it starts with",
                    );
                    Err(message)
                },
            },
        },
    }
}

/// A line of a header is a comment, which says what is behind its mark and at
/// most one space, or is blank; any other line ends the header.
pub proof fn law_a_header_line_is_a_comment(t: Seq<char>)
    ensures
        header_line(seq!['#', ' '] + t) == Some(t),
        t.len() == 0 || t[0] != ' ' ==> header_line(seq!['#'] + t) == Some(t),
        header_line(Seq::empty()) == Some(Seq::<char>::empty()),
        t.len() > 0 && t[0] != '#' && !text::is_space(t[0]) ==> header_line(t) is None,
{
    let a = seq!['#', ' '] + t;
    let b = seq!['#'] + t;
    assert(a[0] == '#' && b[0] == '#');
    assert(a.subrange(2, a.len() as int) =~= t);
    assert(b.drop_first() =~= t);
    if t.len() > 0 {
        assert(b[1] == t[0]);
    }
}

/// A header is the lines that it begins with, up to the first that is no part
/// of one.
pub proof fn law_a_header_ends_at_the_first_other_line(line: Seq<char>, rest: Seq<Seq<char>>)
    ensures
        header_line(line) is None ==> header_block(seq![line] + rest).len() == 0,
        header_line(line) matches Some(t) ==> header_block(seq![line] + rest) == seq![t] + header_block(
            rest,
        ),
        header_block(Seq::empty()).len() == 0,
{
    let all = seq![line] + rest;
    assert(all[0] == line);
    assert(all.drop_first() =~= rest);
}

/// The line that names an interpreter is no part of what a file says about
/// itself.
pub proof fn law_the_interpreter_is_not_documentation(first: Seq<char>, rest: Seq<char>)
    requires
        text::begins(first, "#!"@),
        text::is_line(first),
    ensures
        head_lines(first + seq!['\n'] + rest) == text::lines(rest),
{
    text::law_a_line_ends_at_its_line_feed(first, rest);
    let all = seq![first] + text::lines(rest);
    assert(all[0] == first);
    assert(all.drop_first() =~= text::lines(rest));
}

/// The documentation neither begins nor ends with a blank line, and is what
/// stands between them.
pub proof fn law_documentation_is_trimmed_of_blank_lines(lines: Seq<Seq<char>>)
    ensures
        ({
            let said = to_last_said(from_first_said(lines));
            &&& said.len() > 0 ==> said[0].len() > 0 && said.last().len() > 0
            &&& lines.len() > 0 && lines[0].len() > 0 && lines.last().len() > 0 ==> said == lines
        }),
{
    lemma_from_first_said(lines);
    lemma_to_last_said(from_first_said(lines));
}

proof fn lemma_from_first_said(lines: Seq<Seq<char>>)
    ensures
        from_first_said(lines).len() > 0 ==> from_first_said(lines)[0].len() > 0,
    decreases lines.len(),
{
    if lines.len() > 0 && lines[0].len() == 0 {
        lemma_from_first_said(lines.drop_first());
    }
}

proof fn lemma_to_last_said(lines: Seq<Seq<char>>)
    ensures
        to_last_said(lines).len() > 0 ==> to_last_said(lines).last().len() > 0,
        to_last_said(lines).len() > 0 ==> to_last_said(lines)[0] == lines[0],
    decreases lines.len(),
{
    if lines.len() > 0 && lines.last().len() == 0 {
        lemma_to_last_said(lines.drop_last());
    }
}

/// A file that opens with one comment and then says something else documents
/// itself with that comment.
pub proof fn law_a_comment_is_the_documentation(t: Seq<char>, code: Seq<char>, rest: Seq<char>)
    requires
        t.len() > 0,
        text::is_line(t),
        t[0] != '!',
        text::is_line(code),
        code.len() > 0,
        code[0] != '#',
        !text::is_space(code[0]),
    ensures
        documentation(seq!['#', ' '] + t + seq!['\n'] + code + seq!['\n'] + rest) == Some(
            t + seq!['\n'],
        ),
{
    reveal_strlit("#!");
    reveal_strlit("\n");
    assert("\n"@ =~= seq!['\n']);
    let comment = seq!['#', ' '] + t;
    let body = code + seq!['\n'] + rest;
    assert forall|i: int| 0 <= i < comment.len() implies comment[i] != '\n' by {
        if i >= 2 {
            assert(comment[i] == t[i - 2]);
            assert(!t.contains('\n'));
        }
    }
    assert(comment.last() == t.last());
    text::law_a_line_ends_at_its_line_feed(comment, body);
    assert forall|i: int| 0 <= i < code.len() implies code[i] != '\n' by {
        assert(!code.contains('\n'));
    }
    text::law_a_line_ends_at_its_line_feed(code, rest);
    let whole = seq!['#', ' '] + t + seq!['\n'] + code + seq!['\n'] + rest;
    assert(whole =~= comment + seq!['\n'] + body);
    let all = text::lines(whole);
    assert(all == seq![comment] + text::lines(body));
    assert(all[0] == comment);
    assert(!text::begins(comment, "#!"@)) by {
        if text::begins(comment, "#!"@) {
            assert(comment.subrange(0, 2)[1] == '!');
        }
    }
    law_a_header_line_is_a_comment(t);
    law_a_header_line_is_a_comment(code);
    law_a_header_ends_at_the_first_other_line(comment, text::lines(body));
    law_a_header_ends_at_the_first_other_line(code, text::lines(rest));
    assert(header_block(all) =~= seq![t]);
    law_documentation_is_trimmed_of_blank_lines(seq![t]);
    assert(text::join(seq![t], "\n"@) == t);
}

/// A file is documented by what it says about itself, and one that says
/// nothing, or that is no text, is an error.
pub proof fn law_a_file_documents_itself(path: Seq<char>, bytes: Vec<u8>, e: String)
    ensures
        documented(path, Err(e)) is Err,
        text::decoded(bytes@) is None ==> documented(path, Ok(bytes)) is Err,
        text::decoded(bytes@) is Some && documentation(text::decoded(bytes@)->0) is None ==> documented(
            path,
            Ok(bytes),
        ) is Err,
        text::decoded(bytes@) is Some && documentation(text::decoded(bytes@)->0) is Some ==> documented(
            path,
            Ok(bytes),
        ) == Ok::<Seq<char>, Seq<char>>(documentation(text::decoded(bytes@)->0)->0),
{
}

} // verus!
