//! The Markdown block renderer: a pure, total function from raw text to an
//! ordered sequence of typed display blocks, one block per physical line,
//! classified by prefix. A second pass turns the blocks into the HTML-style
//! preview text.

use vstd::prelude::*;

use crate::blocks::Block;
use crate::blocks::BlockModel;
use crate::blocks::blocks_view;
use crate::text::char_eq;
use crate::text::has_prefix;
use crate::text::has_suffix;
use crate::text::sub_chars;
use crate::text::text_ends_with;
use crate::text::text_starts_with;
use crate::text::trim_chars;
use crate::text::trim_text;

verus! {

/// The physical lines of a text: segments between `'\n'` characters. A text
/// with `n` newline characters has `n + 1` lines; the empty text has one
/// empty line.
pub open spec fn split_lines(s: Seq<char>) -> Seq<Seq<char>>
    decreases s.len(),
{
    if s.len() == 0 {
        seq![Seq::<char>::empty()]
    } else if s[0] == '\n' {
        seq![Seq::<char>::empty()] + split_lines(s.drop_first())
    } else {
        let rest = split_lines(s.drop_first());
        rest.update(0, seq![s[0]] + rest[0])
    }
}

proof fn lemma_split_lines_len(s: Seq<char>)
    ensures
        split_lines(s).len() >= 1,
    decreases s.len(),
{
    if s.len() > 0 {
        lemma_split_lines_len(s.drop_first());
    }
}

proof fn lemma_split_lines_no_nl(s: Seq<char>)
    requires
        forall|i: int| 0 <= i < s.len() ==> s[i] != '\n',
    ensures
        split_lines(s) == seq![s],
    decreases s.len(),
{
    if s.len() == 0 {
        assert(split_lines(s) =~~= seq![s]);
    } else {
        let t = s.drop_first();
        lemma_split_lines_no_nl(t);
        assert(seq![s[0]] + t =~= s);
        assert(split_lines(s) =~~= seq![s]);
    }
}

proof fn lemma_split_lines_at_nl(a: Seq<char>, b: Seq<char>)
    requires
        forall|i: int| 0 <= i < a.len() ==> a[i] != '\n',
    ensures
        split_lines(a + seq!['\n'] + b) == seq![a] + split_lines(b),
    decreases a.len(),
{
    let s = a + seq!['\n'] + b;
    lemma_split_lines_len(b);
    if a.len() == 0 {
        assert(s[0] == '\n');
        assert(s.drop_first() =~= b);
        assert(split_lines(s) =~~= seq![a] + split_lines(b));
    } else {
        assert(s[0] == a[0]);
        assert(s[0] != '\n');
        assert(s.drop_first() =~= a.drop_first() + seq!['\n'] + b);
        lemma_split_lines_at_nl(a.drop_first(), b);
        let rest = split_lines(s.drop_first());
        assert(rest == seq![a.drop_first()] + split_lines(b));
        assert(rest[0] == a.drop_first());
        assert(seq![s[0]] + rest[0] =~= a);
        assert(split_lines(s) =~~= seq![a] + split_lines(b));
    }
}

/// The block one physical line renders to. The line is trimmed first; the
/// first matching rule decides: blank, heading by `#` depth, list item,
/// quote, opening fence, closing fence, else paragraph.
pub open spec fn line_block(raw: Seq<char>) -> BlockModel {
    let t = trim_text(raw);
    if t.len() == 0 {
        BlockModel::Spacer
    } else if text_starts_with(t, seq!['#', '#', '#', ' ']) {
        BlockModel::Heading { level: 3, text: t.skip(4) }
    } else if text_starts_with(t, seq!['#', '#', ' ']) {
        BlockModel::Heading { level: 2, text: t.skip(3) }
    } else if text_starts_with(t, seq!['#', ' ']) {
        BlockModel::Heading { level: 1, text: t.skip(2) }
    } else if text_starts_with(t, seq!['-', ' ']) || text_starts_with(t, seq!['*', ' ']) {
        BlockModel::ListItem { text: t.skip(2) }
    } else if text_starts_with(t, seq!['>', ' ']) {
        BlockModel::Quote { text: t.skip(2) }
    } else if text_starts_with(t, seq!['`', '`', '`']) {
        BlockModel::CodeFenceStart
    } else if text_ends_with(t, seq!['`', '`', '`']) {
        BlockModel::CodeFenceEnd
    } else {
        BlockModel::Paragraph { text: t }
    }
}

/// The blocks of a sequence of lines.
pub open spec fn render_lines(ls: Seq<Seq<char>>) -> Seq<BlockModel> {
    ls.map_values(|l: Seq<char>| line_block(l))
}

/// The rendered form of a whole text: one block per physical line.
pub open spec fn render_text(s: Seq<char>) -> Seq<BlockModel> {
    render_lines(split_lines(s))
}

/// Classifies one physical line.
pub fn classify_line(line: &Vec<char>) -> (b: Block)
    ensures
        b@ == line_block(line@),
{
    let t = trim_chars(line);
    let n = t.len();
    if n == 0 {
        return Block::Spacer;
    }
    let h3 = vec!['#', '#', '#', ' '];
    let h2 = vec!['#', '#', ' '];
    let h1 = vec!['#', ' '];
    let dash = vec!['-', ' '];
    let star = vec!['*', ' '];
    let quote = vec!['>', ' '];
    let fence = vec!['`', '`', '`'];
    if has_prefix(&t, &h3) {
        proof {
            assert(t@.skip(4) =~= t@.subrange(4, t@.len() as int));
        }
        let text = sub_chars(&t, 4, n);
        return Block::Heading { level: 3, text };
    }
    if has_prefix(&t, &h2) {
        proof {
            assert(t@.skip(3) =~= t@.subrange(3, t@.len() as int));
        }
        let text = sub_chars(&t, 3, n);
        return Block::Heading { level: 2, text };
    }
    if has_prefix(&t, &h1) {
        proof {
            assert(t@.skip(2) =~= t@.subrange(2, t@.len() as int));
        }
        let text = sub_chars(&t, 2, n);
        return Block::Heading { level: 1, text };
    }
    if has_prefix(&t, &dash) || has_prefix(&t, &star) {
        proof {
            assert(t@.skip(2) =~= t@.subrange(2, t@.len() as int));
        }
        let text = sub_chars(&t, 2, n);
        return Block::ListItem { text };
    }
    if has_prefix(&t, &quote) {
        proof {
            assert(t@.skip(2) =~= t@.subrange(2, t@.len() as int));
        }
        let text = sub_chars(&t, 2, n);
        return Block::Quote { text };
    }
    if has_prefix(&t, &fence) {
        return Block::CodeFenceStart;
    }
    if has_suffix(&t, &fence) {
        return Block::CodeFenceEnd;
    }
    Block::Paragraph { text: t }
}

/// Renders a text to its sequence of display blocks. Total: every line maps
/// to exactly one block, a paragraph in the worst case.
pub fn render_blocks(text: &Vec<char>) -> (r: Vec<Block>)
    ensures
        blocks_view(r@) == render_text(text@),
{
    let n = text.len();
    let mut out: Vec<Block> = Vec::new();
    let mut start: usize = 0;
    proof {
        assert(text@.skip(0) =~= text@);
        assert(blocks_view(out@) =~= Seq::<BlockModel>::empty());
    }
    loop
        invariant
            0 <= start <= n,
            n == text@.len(),
            render_text(text@) == blocks_view(out@) + render_lines(
                split_lines(text@.skip(start as int)),
            ),
        decreases n - start,
    {
        let mut j: usize = start;
        while j < n && !char_eq(text[j], '\n')
            invariant
                start <= j <= n,
                n == text@.len(),
                forall|k: int| start <= k < j ==> text@[k] != '\n',
            decreases n - j,
        {
            j = j + 1;
        }
        let line = sub_chars(text, start, j);
        let b = classify_line(&line);
        proof {
            let rest = text@.skip(start as int);
            let done = blocks_view(out@);
            if j == n {
                lemma_split_lines_no_nl(rest);
                assert(rest =~= line@);
                assert(blocks_view(out@.push(b)) =~= done + seq![b@]);
                assert(render_lines(seq![line@]) =~= seq![line_block(line@)]);
                assert(done + seq![b@] =~= render_text(text@));
            } else {
                assert(text@[j as int] == '\n');
                let tail = text@.skip(j + 1);
                assert(rest =~= line@ + seq!['\n'] + tail);
                lemma_split_lines_at_nl(line@, tail);
                assert(blocks_view(out@.push(b)) =~= done + seq![b@]);
                assert(render_lines(seq![line@] + split_lines(tail)) =~= seq![b@] + render_lines(
                    split_lines(tail),
                ));
                assert(render_text(text@) =~= blocks_view(out@.push(b)) + render_lines(
                    split_lines(tail),
                ));
            }
        }
        out.push(b);
        if j == n {
            return out;
        }
        start = j + 1;
    }
}

/// The HTML-style preview text of one block.
pub open spec fn html_block(b: BlockModel) -> Seq<char> {
    match b {
        BlockModel::Spacer => seq!['<', 'p', '>', '<', '/', 'p', '>', '\n'],
        BlockModel::Heading { level, text } => {
            if level == 1 {
                seq!['<', 'h', '1', '>'] + text + seq!['<', '/', 'h', '1', '>', '\n']
            } else if level == 2 {
                seq!['<', 'h', '2', '>'] + text + seq!['<', '/', 'h', '2', '>', '\n']
            } else {
                seq!['<', 'h', '3', '>'] + text + seq!['<', '/', 'h', '3', '>', '\n']
            }
        },
        BlockModel::ListItem { text } => seq!['<', 'l', 'i', '>'] + text + seq![
            '<',
            '/',
            'l',
            'i',
            '>',
            '\n',
        ],
        BlockModel::Quote { text } => seq![
            '<',
            'b',
            'l',
            'o',
            'c',
            'k',
            'q',
            'u',
            'o',
            't',
            'e',
            '>',
        ] + text + seq!['<', '/', 'b', 'l', 'o', 'c', 'k', 'q', 'u', 'o', 't', 'e', '>', '\n'],
        BlockModel::CodeFenceStart => seq![
            '<',
            'p',
            'r',
            'e',
            '>',
            '<',
            'c',
            'o',
            'd',
            'e',
            '>',
            '\n',
        ],
        BlockModel::CodeFenceEnd => seq![
            '<',
            '/',
            'c',
            'o',
            'd',
            'e',
            '>',
            '<',
            '/',
            'p',
            'r',
            'e',
            '>',
            '\n',
        ],
        BlockModel::Paragraph { text } => seq!['<', 'p', '>'] + text + seq!['<', '/', 'p', '>', '\n'],
    }
}

/// The HTML-style preview text of a sequence of blocks.
pub open spec fn html_blocks(bs: Seq<BlockModel>) -> Seq<char>
    decreases bs.len(),
{
    if bs.len() == 0 {
        Seq::empty()
    } else {
        html_block(bs[0]) + html_blocks(bs.drop_first())
    }
}

/// The HTML-style preview of a whole text.
pub open spec fn html_text(s: Seq<char>) -> Seq<char> {
    html_blocks(render_text(s))
}

fn push_all(out: &mut Vec<char>, v: &Vec<char>)
    ensures
        final(out)@ == old(out)@ + v@,
{
    let mut i: usize = 0;
    while i < v.len()
        invariant
            0 <= i <= v@.len(),
            out@ == old(out)@ + v@.subrange(0, i as int),
        decreases v@.len() - i,
    {
        out.push(v[i]);
        proof {
            assert(old(out)@ + v@.subrange(0, i + 1) =~= (old(out)@ + v@.subrange(0, i as int)).push(
                v@[i as int],
            ));
        }
        i = i + 1;
    }
    proof {
        assert(v@.subrange(0, v@.len() as int) =~= v@);
    }
}

fn push_html_block(out: &mut Vec<char>, b: &Block)
    ensures
        final(out)@ == old(out)@ + html_block(b@),
{
    match b {
        Block::Spacer => {
            let piece = vec!['<', 'p', '>', '<', '/', 'p', '>', '\n'];
            push_all(out, &piece);
            proof {
                assert(out@ =~= old(out)@ + html_block(b@));
            }
        },
        Block::Heading { level, text } => {
            if *level == 1 {
                let open_tag = vec!['<', 'h', '1', '>'];
                let close_tag = vec!['<', '/', 'h', '1', '>', '\n'];
                push_all(out, &open_tag);
                push_all(out, text);
                push_all(out, &close_tag);
            } else if *level == 2 {
                let open_tag = vec!['<', 'h', '2', '>'];
                let close_tag = vec!['<', '/', 'h', '2', '>', '\n'];
                push_all(out, &open_tag);
                push_all(out, text);
                push_all(out, &close_tag);
            } else {
                let open_tag = vec!['<', 'h', '3', '>'];
                let close_tag = vec!['<', '/', 'h', '3', '>', '\n'];
                push_all(out, &open_tag);
                push_all(out, text);
                push_all(out, &close_tag);
            }
            proof {
                assert(out@ =~= old(out)@ + html_block(b@));
            }
        },
        Block::ListItem { text } => {
            let open_tag = vec!['<', 'l', 'i', '>'];
            let close_tag = vec!['<', '/', 'l', 'i', '>', '\n'];
            push_all(out, &open_tag);
            push_all(out, text);
            push_all(out, &close_tag);
            proof {
                assert(out@ =~= old(out)@ + html_block(b@));
            }
        },
        Block::Quote { text } => {
            let open_tag = vec!['<', 'b', 'l', 'o', 'c', 'k', 'q', 'u', 'o', 't', 'e', '>'];
            let close_tag = vec!['<', '/', 'b', 'l', 'o', 'c', 'k', 'q', 'u', 'o', 't', 'e', '>', '\n'];
            push_all(out, &open_tag);
            push_all(out, text);
            push_all(out, &close_tag);
            proof {
                assert(out@ =~= old(out)@ + html_block(b@));
            }
        },
        Block::CodeFenceStart => {
            let piece = vec!['<', 'p', 'r', 'e', '>', '<', 'c', 'o', 'd', 'e', '>', '\n'];
            push_all(out, &piece);
            proof {
                assert(out@ =~= old(out)@ + html_block(b@));
            }
        },
        Block::CodeFenceEnd => {
            let piece = vec!['<', '/', 'c', 'o', 'd', 'e', '>', '<', '/', 'p', 'r', 'e', '>', '\n'];
            push_all(out, &piece);
            proof {
                assert(out@ =~= old(out)@ + html_block(b@));
            }
        },
        Block::Paragraph { text } => {
            let open_tag = vec!['<', 'p', '>'];
            let close_tag = vec!['<', '/', 'p', '>', '\n'];
            push_all(out, &open_tag);
            push_all(out, text);
            push_all(out, &close_tag);
            proof {
                assert(out@ =~= old(out)@ + html_block(b@));
            }
        },
    }
}

/// Renders a text to its HTML-style preview: the blocks of `render_blocks`,
/// each written as one tagged line.
pub fn render_html(text: &Vec<char>) -> (r: Vec<char>)
    ensures
        r@ == html_text(text@),
{
    let blocks = render_blocks(text);
    let ghost models = blocks_view(blocks@);
    let mut out: Vec<char> = Vec::new();
    let mut i: usize = 0;
    proof {
        assert(models.take(0).len() == 0);
        assert(out@ =~= html_blocks(models.take(0)));
    }
    while i < blocks.len()
        invariant
            0 <= i <= blocks@.len(),
            models == blocks_view(blocks@),
            models.len() == blocks@.len(),
            out@ == html_blocks(models.take(i as int)),
        decreases blocks@.len() - i,
    {
        push_html_block(&mut out, &blocks[i]);
        proof {
            assert(blocks@[i as int]@ == models[i as int]);
            assert(models.take(i + 1).drop_last() =~= models.take(i as int));
            assert(models.take(i + 1).last() == models[i as int]);
            lemma_html_blocks_last(models.take(i + 1));
        }
        i = i + 1;
    }
    proof {
        assert(models.take(models.len() as int) =~= models);
    }
    out
}

proof fn lemma_html_blocks_last(bs: Seq<BlockModel>)
    requires
        bs.len() > 0,
    ensures
        html_blocks(bs) == html_blocks(bs.drop_last()) + html_block(bs.last()),
    decreases bs.len(),
{
    if bs.len() == 1 {
        assert(bs.drop_last().len() == 0);
        assert(bs.drop_first().len() == 0);
        assert(bs[0] == bs.last());
        assert(html_blocks(bs.drop_first()) == Seq::<char>::empty());
        assert(html_blocks(bs.drop_last()) == Seq::<char>::empty());
        assert(html_blocks(bs) == html_block(bs[0]) + html_blocks(bs.drop_first()));
        assert(html_blocks(bs) =~= html_blocks(bs.drop_last()) + html_block(bs.last()));
    } else {
        let t = bs.drop_first();
        lemma_html_blocks_last(t);
        assert(t.last() == bs.last());
        assert(t.drop_last() =~= bs.drop_last().drop_first());
        assert(bs.drop_last()[0] == bs[0]);
        assert(bs.drop_last().len() > 0);
        assert(html_blocks(bs.drop_last()) == html_block(bs[0]) + html_blocks(t.drop_last()));
        assert(html_blocks(bs) == html_block(bs[0]) + html_blocks(t));
        assert(html_blocks(t) == html_blocks(t.drop_last()) + html_block(t.last()));
        assert(html_blocks(bs) =~= (html_block(bs[0]) + html_blocks(t.drop_last())) + html_block(
            t.last(),
        ));
        assert(html_blocks(bs) =~= html_blocks(bs.drop_last()) + html_block(bs.last()));
    }
}

} // verus!
