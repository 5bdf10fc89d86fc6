use vstd::prelude::*;

verus! {

/// The lines of a text, split at `'\n'`, with the delimiters removed.
/// A trailing newline does not open an extra empty line, matching how
/// line iteration behaves on ordinary text.
pub open spec fn lines_of(text: Seq<char>) -> Seq<Seq<char>> {
    if text.len() == 0 {
        Seq::empty()
    } else if text.last() == '\n' {
        split_newlines(text.drop_last())
    } else {
        split_newlines(text)
    }
}

/// Splits a character sequence at every `'\n'`; an empty sequence yields
/// one empty line.
pub open spec fn split_newlines(text: Seq<char>) -> Seq<Seq<char>>
    decreases text.len(),
    via split_newlines_decreases
{
    if !text.contains('\n') {
        seq![text]
    } else {
        let i = first_newline(text);
        seq![text.take(i)] + split_newlines(text.skip(i + 1))
    }
}

#[via_fn]
proof fn split_newlines_decreases(text: Seq<char>) {
    lemma_first_newline(text);
}

/// Index of the first `'\n'` in `text`; `text.len()` when there is none.
pub open spec fn first_newline(text: Seq<char>) -> int
    decreases text.len(),
{
    if text.len() == 0 {
        0
    } else if text[0] == '\n' {
        0
    } else {
        1 + first_newline(text.drop_first())
    }
}

proof fn lemma_first_newline(text: Seq<char>)
    ensures
        0 <= first_newline(text) <= text.len(),
        forall|j: int| 0 <= j < first_newline(text) ==> text[j] != '\n',
        first_newline(text) < text.len() ==> text[first_newline(text)] == '\n',
        text.contains('\n') ==> first_newline(text) < text.len(),
    decreases text.len(),
{
    if text.len() == 0 {
    } else if text[0] == '\n' {
    } else {
        lemma_first_newline(text.drop_first());
        assert forall|j: int| 0 <= j < first_newline(text) implies text[j] != '\n' by {
            if j >= 1 {
                assert(text.drop_first()[j - 1] != '\n');
            }
        }
        if first_newline(text) < text.len() {
            assert(text[first_newline(text)] == text.drop_first()[first_newline(text) - 1]);
        }
        if text.contains('\n') {
            let w = choose|w: int| 0 <= w < text.len() && text[w] == '\n';
            assert(text.drop_first()[w - 1] == '\n');
            assert(text.drop_first().contains('\n'));
        }
    }
}

/// A line opens or closes a fenced code region when it starts with three
/// backticks.
pub open spec fn is_fence(line: Seq<char>) -> bool {
    line.len() >= 3 && line[0] == '`' && line[1] == '`' && line[2] == '`'
}

/// How a line appears inside a chunk: a blank line becomes a double
/// newline, any other line gets a single trailing newline.
pub open spec fn norm_piece(line: Seq<char>) -> Seq<char> {
    if line.len() == 0 {
        seq!['\n', '\n']
    } else {
        line.push('\n')
    }
}

/// The text that a buffer holds after the given lines were appended to it.
pub open spec fn normalized_text(lines: Seq<Seq<char>>) -> Seq<char>
    decreases lines.len(),
{
    if lines.len() == 0 {
        Seq::empty()
    } else {
        norm_piece(lines[0]) + normalized_text(lines.drop_first())
    }
}

/// Number of fence-marker lines among `lines`.
pub open spec fn fence_count(lines: Seq<Seq<char>>) -> nat
    decreases lines.len(),
{
    if lines.len() == 0 {
        0
    } else {
        (if is_fence(lines[0]) { 1nat } else { 0nat }) + fence_count(lines.drop_first())
    }
}

/// The groups of lines that the chunker forms from the remaining `lines`,
/// given the lines `cur` already gathered for the open chunk and whether
/// the scan stands inside a fenced code region.
///
/// A blank line and a fence line always join the open chunk; a fence line
/// toggles the fenced state.  Any other line joins the open chunk while the
/// scan is fenced or while the chunk stays below `max` characters;
/// otherwise the open chunk is emitted and the line starts the next one.
pub open spec fn chunk_from(
    lines: Seq<Seq<char>>,
    max: nat,
    cur: Seq<Seq<char>>,
    in_code: bool,
) -> Seq<Seq<Seq<char>>>
    decreases lines.len(),
{
    if lines.len() == 0 {
        if cur.len() == 0 {
            Seq::empty()
        } else {
            seq![cur]
        }
    } else {
        let l = lines[0];
        let rest = lines.drop_first();
        if l.len() == 0 {
            chunk_from(rest, max, cur.push(l), in_code)
        } else if is_fence(l) {
            chunk_from(rest, max, cur.push(l), !in_code)
        } else if in_code || normalized_text(cur).len() + l.len() < max {
            chunk_from(rest, max, cur.push(l), in_code)
        } else if cur.len() == 0 {
            chunk_from(rest, max, seq![l], in_code)
        } else {
            seq![cur] + chunk_from(rest, max, seq![l], in_code)
        }
    }
}

/// The line groups the chunker forms from a whole text.
pub open spec fn chunk_groups(lines: Seq<Seq<char>>, max: nat) -> Seq<Seq<Seq<char>>> {
    chunk_from(lines, max, Seq::empty(), false)
}

/// The chunks of a text: each group of lines rendered as one string.
pub open spec fn chunks_of(text: Seq<char>, max: nat) -> Seq<Seq<char>> {
    chunk_groups(lines_of(text), max).map_values(|g: Seq<Seq<char>>| normalized_text(g))
}

proof fn lemma_normalized_push(lines: Seq<Seq<char>>, l: Seq<char>)
    ensures
        normalized_text(lines.push(l)) == normalized_text(lines) + norm_piece(l),
    decreases lines.len(),
{
    if lines.len() == 0 {
        assert(lines.push(l)[0] == l);
        assert(lines.push(l).drop_first() =~= Seq::<Seq<char>>::empty());
        assert(normalized_text(Seq::<Seq<char>>::empty()) =~= Seq::<char>::empty());
        assert(normalized_text(lines.push(l)) =~= norm_piece(l));
        assert(normalized_text(lines) + norm_piece(l) =~= norm_piece(l));
    } else {
        assert(lines.push(l)[0] == lines[0]);
        assert(lines.push(l).drop_first() =~= lines.drop_first().push(l));
        lemma_normalized_push(lines.drop_first(), l);
        assert(normalized_text(lines.push(l)) =~= normalized_text(lines) + norm_piece(l));
    }
}

proof fn lemma_normalized_len(lines: Seq<Seq<char>>)
    ensures
        normalized_text(lines).len() == 0 <==> lines.len() == 0,
    decreases lines.len(),
{
    if lines.len() > 0 {
        assert(norm_piece(lines[0]).len() > 0);
    }
}

proof fn lemma_normalized_concat(a: Seq<Seq<char>>, b: Seq<Seq<char>>)
    ensures
        normalized_text(a + b) == normalized_text(a) + normalized_text(b),
    decreases a.len(),
{
    if a.len() == 0 {
        assert(a + b =~= b);
        assert(normalized_text(a) + normalized_text(b) =~= normalized_text(b));
    } else {
        assert((a + b).drop_first() =~= a.drop_first() + b);
        lemma_normalized_concat(a.drop_first(), b);
        assert(normalized_text(a + b) =~= normalized_text(a) + normalized_text(b));
    }
}

proof fn lemma_fence_count_push(lines: Seq<Seq<char>>, l: Seq<char>)
    ensures
        fence_count(lines.push(l)) == fence_count(lines) + (if is_fence(l) {
            1nat
        } else {
            0nat
        }),
    decreases lines.len(),
{
    if lines.len() == 0 {
        assert(lines.push(l)[0] == l);
        assert(lines.push(l).drop_first() =~= Seq::<Seq<char>>::empty());
        assert(fence_count(Seq::<Seq<char>>::empty()) == 0);
    } else {
        assert(lines.push(l)[0] == lines[0]);
        assert(lines.push(l).drop_first() =~= lines.drop_first().push(l));
        lemma_fence_count_push(lines.drop_first(), l);
    }
}

/// Every line lands in exactly one group, in order: the groups formed from
/// the remaining lines concatenate to the open chunk's lines followed by
/// those remaining lines.
proof fn lemma_chunk_from_flatten(lines: Seq<Seq<char>>, max: nat, cur: Seq<Seq<char>>, in_code: bool)
    ensures
        chunk_from(lines, max, cur, in_code).flatten() == cur + lines,
    decreases lines.len(),
{
    if lines.len() == 0 {
        if cur.len() == 0 {
            assert(lines =~= Seq::<Seq<char>>::empty());
            assert(chunk_from(lines, max, cur, in_code).flatten() =~= cur + lines);
        } else {
            assert(lines =~= Seq::<Seq<char>>::empty());
            assert(seq![cur].drop_first() =~= Seq::<Seq<Seq<char>>>::empty());
            assert(Seq::<Seq<Seq<char>>>::empty().flatten() =~= Seq::<Seq<char>>::empty());
            assert(seq![cur].flatten() =~= cur + lines);
        }
    } else {
        let l = lines[0];
        let rest = lines.drop_first();
        assert(cur.push(l) + rest =~= cur + lines);
        if l.len() == 0 {
            lemma_chunk_from_flatten(rest, max, cur.push(l), in_code);
        } else if is_fence(l) {
            lemma_chunk_from_flatten(rest, max, cur.push(l), !in_code);
        } else if in_code || normalized_text(cur).len() + l.len() < max {
            lemma_chunk_from_flatten(rest, max, cur.push(l), in_code);
        } else if cur.len() == 0 {
            lemma_chunk_from_flatten(rest, max, seq![l], in_code);
            assert(seq![l] + rest =~= cur + lines);
        } else {
            lemma_chunk_from_flatten(rest, max, seq![l], in_code);
            assert((seq![cur] + chunk_from(rest, max, seq![l], in_code)).drop_first() =~= chunk_from(
                rest,
                max,
                seq![l],
                in_code,
            ));
            assert((seq![cur] + chunk_from(rest, max, seq![l], in_code)).flatten() =~= cur + (
            seq![l] + rest));
            assert(cur + (seq![l] + rest) =~= cur + lines);
        }
    }
}

proof fn lemma_map_normalized_concat(gs: Seq<Seq<Seq<char>>>)
    ensures
        gs.map_values(|g: Seq<Seq<char>>| normalized_text(g)).flatten() == normalized_text(
            gs.flatten(),
        ),
    decreases gs.len(),
{
    let f = |g: Seq<Seq<char>>| normalized_text(g);
    if gs.len() == 0 {
        assert(gs.map_values(f).flatten() =~= normalized_text(gs.flatten()));
    } else {
        lemma_map_normalized_concat(gs.drop_first());
        assert(gs.map_values(f).drop_first() =~= gs.drop_first().map_values(f));
        lemma_normalized_concat(gs[0], gs.drop_first().flatten());
        assert(gs.flatten() =~= gs[0] + gs.drop_first().flatten());
        assert(gs.map_values(f).flatten() =~= normalized_text(gs.flatten()));
    }
}

/// Rejoining all chunks of a text reproduces the whole text as the chunker
/// normalizes it: every line in original order, blank lines as a double
/// newline and every other line with a single trailing newline.
pub proof fn lemma_chunks_rejoin(text: Seq<char>, max: nat)
    ensures
        chunks_of(text, max).flatten() == normalized_text(lines_of(text)),
{
    lemma_chunk_from_flatten(lines_of(text), max, Seq::empty(), false);
    lemma_map_normalized_concat(chunk_groups(lines_of(text), max));
    assert(Seq::empty() + lines_of(text) =~= lines_of(text));
}

/// The lines that carry content or fence markers: all non-blank lines,
/// in order.
pub open spec fn nonblank_lines(lines: Seq<Seq<char>>) -> Seq<Seq<char>>
    decreases lines.len(),
{
    if lines.len() == 0 {
        Seq::empty()
    } else if lines[0].len() == 0 {
        nonblank_lines(lines.drop_first())
    } else {
        seq![lines[0]] + nonblank_lines(lines.drop_first())
    }
}

proof fn lemma_nonblank_concat(a: Seq<Seq<char>>, b: Seq<Seq<char>>)
    ensures
        nonblank_lines(a + b) == nonblank_lines(a) + nonblank_lines(b),
    decreases a.len(),
{
    if a.len() == 0 {
        assert(a + b =~= b);
        assert(nonblank_lines(a) + nonblank_lines(b) =~= nonblank_lines(b));
    } else {
        assert((a + b).drop_first() =~= a.drop_first() + b);
        lemma_nonblank_concat(a.drop_first(), b);
        assert(nonblank_lines(a + b) =~= nonblank_lines(a) + nonblank_lines(b));
    }
}

proof fn lemma_nonblank_expand(g: Seq<Seq<char>>)
    ensures
        nonblank_lines(expand(g)) == nonblank_lines(g),
    decreases g.len(),
{
    if g.len() == 0 {
    } else {
        let head: Seq<Seq<char>> = if g[0].len() == 0 {
            seq![Seq::<char>::empty(), Seq::<char>::empty()]
        } else {
            seq![g[0]]
        };
        lemma_nonblank_expand(g.drop_first());
        lemma_nonblank_concat(head, expand(g.drop_first()));
        assert(nonblank_lines(head) =~= (if g[0].len() == 0 {
            Seq::<Seq<char>>::empty()
        } else {
            seq![g[0]]
        })) by {
            assert(nonblank_lines(Seq::<Seq<char>>::empty()) =~= Seq::<Seq<char>>::empty());
            if g[0].len() == 0 {
                assert(head[0] == Seq::<char>::empty());
                assert(head.drop_first() =~= seq![Seq::<char>::empty()]);
                assert(head.drop_first()[0] == Seq::<char>::empty());
                assert(head.drop_first().drop_first() =~= Seq::<Seq<char>>::empty());
                assert(nonblank_lines(head.drop_first()) =~= Seq::<Seq<char>>::empty());
            } else {
                assert(head[0] == g[0]);
                assert(head.drop_first() =~= Seq::<Seq<char>>::empty());
                assert(seq![g[0]] + Seq::<Seq<char>>::empty() =~= seq![g[0]]);
            }
        }
        assert(nonblank_lines(expand(g)) =~= nonblank_lines(g));
    }
}

/// Rejoining all chunks reproduces all non-blank content, fence markers
/// included, in original order: splitting the rejoined text back into
/// lines and dropping the blank ones gives exactly the original text's
/// non-blank lines.
pub proof fn lemma_chunks_rejoin_lines(text: Seq<char>, max: nat)
    ensures
        nonblank_lines(lines_of(chunks_of(text, max).flatten())) == nonblank_lines(
            lines_of(text),
        ),
{
    lemma_chunks_rejoin(text, max);
    let l = lines_of(text);
    if l.len() == 0 {
        assert(normalized_text(l) =~= Seq::<char>::empty());
        assert(lines_of(Seq::<char>::empty()) =~= Seq::<Seq<char>>::empty());
    } else {
        assert(lines_clean(l)) by {
            if text.len() == 0 {
            } else if text.last() == '\n' {
                lemma_split_newlines_clean(text.drop_last());
            } else {
                lemma_split_newlines_clean(text);
            }
        }
        lemma_normalized_is_joined_expand(l);
        lemma_expand_clean(l);
        lemma_split_of_joined(expand(l));
        assert(lines_of(normalized_text(l)) == expand(l)) by {
            lemma_joined_len(expand(l));
            assert(normalized_text(l).last() == '\n');
            assert(lines_of(normalized_text(l)) == split_newlines(normalized_text(l).drop_last()));
            assert(normalized_text(l).drop_last() =~= joined(expand(l)).drop_last());
        }
        lemma_nonblank_expand(l);
    }
}

proof fn lemma_chunk_from_fences(lines: Seq<Seq<char>>, max: nat, cur: Seq<Seq<char>>, in_code: bool)
    requires
        in_code <==> fence_count(cur) % 2 == 1,
        (fence_count(cur) + fence_count(lines)) % 2 == 0,
    ensures
        forall|i: int|
            0 <= i < chunk_from(lines, max, cur, in_code).len() ==> #[trigger] fence_count(
                chunk_from(lines, max, cur, in_code)[i],
            ) % 2 == 0,
    decreases lines.len(),
{
    if lines.len() == 0 {
        if cur.len() > 0 {
            assert(chunk_from(lines, max, cur, in_code) =~= seq![cur]);
        }
    } else {
        let l = lines[0];
        let rest = lines.drop_first();
        lemma_fence_count_push(cur, l);
        assert(fence_count(lines) == (if is_fence(l) {
            1nat
        } else {
            0nat
        }) + fence_count(rest));
        assert(fence_count(seq![l]) == (if is_fence(l) {
            1nat
        } else {
            0nat
        })) by {
            assert(seq![l].drop_first() =~= Seq::<Seq<char>>::empty());
            assert(fence_count(Seq::<Seq<char>>::empty()) == 0);
        }
        if l.len() == 0 {
            lemma_chunk_from_fences(rest, max, cur.push(l), in_code);
            assert(chunk_from(lines, max, cur, in_code) == chunk_from(rest, max, cur.push(l), in_code));
        } else if is_fence(l) {
            lemma_chunk_from_fences(rest, max, cur.push(l), !in_code);
            assert(chunk_from(lines, max, cur, in_code) == chunk_from(rest, max, cur.push(l), !in_code));
        } else if in_code || normalized_text(cur).len() + l.len() < max {
            lemma_chunk_from_fences(rest, max, cur.push(l), in_code);
            assert(chunk_from(lines, max, cur, in_code) == chunk_from(rest, max, cur.push(l), in_code));
        } else if cur.len() == 0 {
            lemma_chunk_from_fences(rest, max, seq![l], in_code);
            assert(chunk_from(lines, max, cur, in_code) == chunk_from(rest, max, seq![l], in_code));
        } else {
            lemma_chunk_from_fences(rest, max, seq![l], in_code);
            let tail = chunk_from(rest, max, seq![l], in_code);
            let out = seq![cur] + tail;
            assert(chunk_from(lines, max, cur, in_code) == out);
            assert forall|i: int| 0 <= i < out.len() implies #[trigger] fence_count(out[i]) % 2
                == 0 by {
                if i == 0 {
                    assert(out[0] == cur);
                } else {
                    assert(out[i] == tail[i - 1]);
                    assert(fence_count(tail[i - 1]) % 2 == 0);
                }
            }
        }
    }
}

/// A chunk boundary never falls inside a fenced code region: when a text
/// holds balanced fences, every group of lines that forms a chunk holds an
/// even number of fence markers, so the scan stands outside any fence at
/// every chunk boundary.
pub proof fn lemma_chunks_respect_fences(text: Seq<char>, max: nat)
    requires
        fence_count(lines_of(text)) % 2 == 0,
    ensures
        forall|i: int|
            0 <= i < chunk_groups(lines_of(text), max).len() ==> #[trigger] fence_count(
                chunk_groups(lines_of(text), max)[i],
            ) % 2 == 0,
{
    lemma_chunk_from_fences(lines_of(text), max, Seq::empty(), false);
}

proof fn lemma_split_newlines_nonempty(text: Seq<char>)
    ensures
        split_newlines(text).len() >= 1,
{
}

proof fn lemma_chunk_from_nonempty(lines: Seq<Seq<char>>, max: nat, cur: Seq<Seq<char>>, in_code: bool)
    requires
        lines.len() > 0 || cur.len() > 0,
    ensures
        chunk_from(lines, max, cur, in_code).len() >= 1,
    decreases lines.len(),
{
    if lines.len() == 0 {
    } else {
        let l = lines[0];
        let rest = lines.drop_first();
        if l.len() == 0 {
            lemma_chunk_from_nonempty(rest, max, cur.push(l), in_code);
        } else if is_fence(l) {
            lemma_chunk_from_nonempty(rest, max, cur.push(l), !in_code);
        } else if in_code || normalized_text(cur).len() + l.len() < max {
            lemma_chunk_from_nonempty(rest, max, cur.push(l), in_code);
        } else {
            lemma_chunk_from_nonempty(rest, max, seq![l], in_code);
        }
    }
}

proof fn lemma_chunk_from_groups_nonempty(
    lines: Seq<Seq<char>>,
    max: nat,
    cur: Seq<Seq<char>>,
    in_code: bool,
)
    ensures
        forall|i: int|
            0 <= i < chunk_from(lines, max, cur, in_code).len() ==> #[trigger] chunk_from(
                lines,
                max,
                cur,
                in_code,
            )[i].len() > 0,
    decreases lines.len(),
{
    if lines.len() == 0 {
        if cur.len() > 0 {
            assert(chunk_from(lines, max, cur, in_code) =~= seq![cur]);
            assert(chunk_from(lines, max, cur, in_code)[0] == cur);
        }
    } else {
        let l = lines[0];
        let rest = lines.drop_first();
        if l.len() == 0 {
            lemma_chunk_from_groups_nonempty(rest, max, cur.push(l), in_code);
            assert(chunk_from(lines, max, cur, in_code) == chunk_from(rest, max, cur.push(l), in_code));
        } else if is_fence(l) {
            lemma_chunk_from_groups_nonempty(rest, max, cur.push(l), !in_code);
            assert(chunk_from(lines, max, cur, in_code) == chunk_from(rest, max, cur.push(l), !in_code));
        } else if in_code || normalized_text(cur).len() + l.len() < max {
            lemma_chunk_from_groups_nonempty(rest, max, cur.push(l), in_code);
            assert(chunk_from(lines, max, cur, in_code) == chunk_from(rest, max, cur.push(l), in_code));
        } else if cur.len() == 0 {
            lemma_chunk_from_groups_nonempty(rest, max, seq![l], in_code);
            assert(chunk_from(lines, max, cur, in_code) == chunk_from(rest, max, seq![l], in_code));
        } else {
            lemma_chunk_from_groups_nonempty(rest, max, seq![l], in_code);
            let tail = chunk_from(rest, max, seq![l], in_code);
            let out = seq![cur] + tail;
            assert(chunk_from(lines, max, cur, in_code) == out);
            assert forall|i: int| 0 <= i < out.len() implies #[trigger] out[i].len() > 0 by {
                if i > 0 {
                    assert(out[i] == tail[i - 1]);
                    assert(tail[i - 1].len() > 0);
                }
            }
        }
    }
}

/// Lines rendered back into one text, each with a trailing newline.
pub open spec fn joined(lines: Seq<Seq<char>>) -> Seq<char>
    decreases lines.len(),
{
    if lines.len() == 0 {
        Seq::empty()
    } else {
        lines[0].push('\n') + joined(lines.drop_first())
    }
}

/// The lines a chunk's text displays for a group of source lines: a blank
/// source line stands as two empty lines — its double newline — and any
/// other line as itself.
pub open spec fn expand(g: Seq<Seq<char>>) -> Seq<Seq<char>>
    decreases g.len(),
{
    if g.len() == 0 {
        Seq::empty()
    } else {
        (if g[0].len() == 0 {
            seq![Seq::<char>::empty(), Seq::<char>::empty()]
        } else {
            seq![g[0]]
        }) + expand(g.drop_first())
    }
}

/// No newline stands inside any of `lines`.
pub open spec fn lines_clean(lines: Seq<Seq<char>>) -> bool {
    forall|i: int, j: int|
        0 <= i < lines.len() && 0 <= j < lines[i].len() ==> #[trigger] lines[i][j] != '\n'
}

proof fn lemma_joined_concat(a: Seq<Seq<char>>, b: Seq<Seq<char>>)
    ensures
        joined(a + b) == joined(a) + joined(b),
    decreases a.len(),
{
    if a.len() == 0 {
        assert(a + b =~= b);
        assert(joined(a) + joined(b) =~= joined(b));
    } else {
        assert((a + b).drop_first() =~= a.drop_first() + b);
        lemma_joined_concat(a.drop_first(), b);
        assert(joined(a + b) =~= joined(a) + joined(b));
    }
}

proof fn lemma_joined_len(lines: Seq<Seq<char>>)
    ensures
        joined(lines).len() >= lines.len(),
    decreases lines.len(),
{
    if lines.len() > 0 {
        lemma_joined_len(lines.drop_first());
    }
}

/// A chunk's text is its source lines rendered with their newlines: the
/// normalized form of a group is the join of its displayed lines.
proof fn lemma_normalized_is_joined_expand(g: Seq<Seq<char>>)
    ensures
        normalized_text(g) == joined(expand(g)),
    decreases g.len(),
{
    if g.len() == 0 {
    } else {
        let head: Seq<Seq<char>> = if g[0].len() == 0 {
            seq![Seq::<char>::empty(), Seq::<char>::empty()]
        } else {
            seq![g[0]]
        };
        lemma_normalized_is_joined_expand(g.drop_first());
        lemma_joined_concat(head, expand(g.drop_first()));
        assert(joined(head) =~= norm_piece(g[0])) by {
            assert(joined(Seq::<Seq<char>>::empty()) =~= Seq::<char>::empty());
            if g[0].len() == 0 {
                assert(head[0] == Seq::<char>::empty());
                assert(head.drop_first() =~= seq![Seq::<char>::empty()]);
                assert(head.drop_first()[0] == Seq::<char>::empty());
                assert(head.drop_first().drop_first() =~= Seq::<Seq<char>>::empty());
                assert(joined(head.drop_first()) =~= seq!['\n']);
                assert(joined(head) =~= seq!['\n', '\n']);
            } else {
                assert(head[0] == g[0]);
                assert(head.drop_first() =~= Seq::<Seq<char>>::empty());
                assert(joined(head) =~= g[0].push('\n'));
            }
        }
        assert(normalized_text(g) =~= joined(expand(g)));
    }
}

/// Splitting the join of newline-free lines restores exactly those lines.
proof fn lemma_split_of_joined(lines: Seq<Seq<char>>)
    requires
        lines.len() > 0,
        lines_clean(lines),
    ensures
        joined(lines).len() > 0,
        joined(lines).last() == '\n',
        split_newlines(joined(lines).drop_last()) == lines,
    decreases lines.len(),
{
    let l = lines[0];
    let rest = lines.drop_first();
    if lines.len() == 1 {
        assert(joined(lines) =~= l.push('\n'));
        assert(joined(lines).drop_last() =~= l);
        assert(forall|j: int| 0 <= j < l.len() ==> #[trigger] l[j] != '\n');
        if l.contains('\n') {
            let w = choose|w: int| 0 <= w < l.len() && l[w] == '\n';
            assert(false);
        }
        assert(split_newlines(l) =~= seq![l]);
        assert(seq![l] =~= lines);
    } else {
        assert(lines_clean(rest)) by {
            assert(forall|i: int, j: int|
                0 <= i < rest.len() && 0 <= j < rest[i].len() ==> #[trigger] rest[i][j]
                    == lines[i + 1][j]);
        }
        lemma_split_of_joined(rest);
        let body = joined(lines).drop_last();
        assert(joined(lines) =~= l.push('\n') + joined(rest));
        assert(body =~= l.push('\n') + joined(rest).drop_last());
        let t = body;
        assert(t.len() > l.len());
        assert(t[l.len() as int] == '\n');
        assert(forall|j: int| 0 <= j < l.len() ==> #[trigger] t[j] == l[j] && l[j] != '\n');
        lemma_first_newline(t);
        assert(t.contains('\n')) by {
            assert(t[l.len() as int] == '\n');
        }
        assert(first_newline(t) == l.len()) by {
            assert(t[first_newline(t)] == '\n');
            assert(first_newline(t) >= l.len()) by {
                if first_newline(t) < l.len() {
                    assert(t[first_newline(t)] != '\n');
                }
            }
            if first_newline(t) > l.len() {
                assert(t[l.len() as int] != '\n');
            }
        }
        assert(t.take(l.len() as int) =~= l);
        assert(t.skip(l.len() as int + 1) =~= joined(rest).drop_last());
        assert(split_newlines(t) == seq![l] + split_newlines(joined(rest).drop_last()));
        assert(seq![l] + rest =~= lines);
    }
}

proof fn lemma_fence_count_concat(a: Seq<Seq<char>>, b: Seq<Seq<char>>)
    ensures
        fence_count(a + b) == fence_count(a) + fence_count(b),
    decreases a.len(),
{
    if a.len() == 0 {
        assert(a + b =~= b);
    } else {
        assert((a + b).drop_first() =~= a.drop_first() + b);
        lemma_fence_count_concat(a.drop_first(), b);
    }
}

/// The displayed lines of a group carry exactly the group's fence
/// markers: a blank line displays as empty lines, which are no fences.
proof fn lemma_expand_fences(g: Seq<Seq<char>>)
    ensures
        fence_count(expand(g)) == fence_count(g),
        expand(g).len() >= g.len(),
    decreases g.len(),
{
    if g.len() == 0 {
    } else {
        let head: Seq<Seq<char>> = if g[0].len() == 0 {
            seq![Seq::<char>::empty(), Seq::<char>::empty()]
        } else {
            seq![g[0]]
        };
        lemma_expand_fences(g.drop_first());
        lemma_fence_count_concat(head, expand(g.drop_first()));
        assert(fence_count(head) == (if is_fence(g[0]) {
            1nat
        } else {
            0nat
        })) by {
            assert(fence_count(Seq::<Seq<char>>::empty()) == 0);
            if g[0].len() == 0 {
                assert(head[0] == Seq::<char>::empty());
                assert(head.drop_first() =~= seq![Seq::<char>::empty()]);
                assert(head.drop_first()[0] == Seq::<char>::empty());
                assert(head.drop_first().drop_first() =~= Seq::<Seq<char>>::empty());
                assert(fence_count(head.drop_first()) == 0);
            } else {
                assert(head[0] == g[0]);
                assert(head.drop_first() =~= Seq::<Seq<char>>::empty());
            }
        }
    }
}

proof fn lemma_expand_clean(g: Seq<Seq<char>>)
    requires
        lines_clean(g),
    ensures
        lines_clean(expand(g)),
        expand(g).len() > 0 <==> g.len() > 0,
    decreases g.len(),
{
    if g.len() == 0 {
    } else {
        let head: Seq<Seq<char>> = if g[0].len() == 0 {
            seq![Seq::<char>::empty(), Seq::<char>::empty()]
        } else {
            seq![g[0]]
        };
        assert(lines_clean(g.drop_first())) by {
            assert(forall|i: int, j: int|
                0 <= i < g.drop_first().len() && 0 <= j < g.drop_first()[i].len()
                    ==> #[trigger] g.drop_first()[i][j] == g[i + 1][j]);
        }
        lemma_expand_clean(g.drop_first());
        assert forall|i: int, j: int|
            0 <= i < expand(g).len() && 0 <= j < expand(g)[i].len() implies #[trigger] expand(
            g,
        )[i][j] != '\n' by {
            if i < head.len() {
                assert(expand(g)[i] == head[i]);
                if g[0].len() > 0 && i == 0 {
                    assert(g[0][j] != '\n');
                }
            } else {
                assert(expand(g)[i] == expand(g.drop_first())[i - head.len()]);
            }
        }
    }
}

/// Every line of a split carries no newline.
proof fn lemma_split_newlines_clean(text: Seq<char>)
    ensures
        lines_clean(split_newlines(text)),
    decreases text.len(),
{
    lemma_first_newline(text);
    if !text.contains('\n') {
        assert forall|i: int, j: int|
            0 <= i < split_newlines(text).len() && 0 <= j < split_newlines(text)[i].len()
            implies #[trigger] split_newlines(text)[i][j] != '\n' by {
            assert(split_newlines(text)[i] == text);
            if text[j] == '\n' {
                assert(text.contains('\n'));
            }
        }
    } else {
        let k = first_newline(text);
        lemma_split_newlines_clean(text.skip(k + 1));
        let s = split_newlines(text);
        assert forall|i: int, j: int|
            0 <= i < s.len() && 0 <= j < s[i].len() implies #[trigger] s[i][j] != '\n' by {
            if i == 0 {
                assert(s[0] == text.take(k));
                assert(text[j] != '\n');
            } else {
                assert(s[i] == split_newlines(text.skip(k + 1))[i - 1]);
            }
        }
    }
}

/// Every line the chunker ever groups carries no newline, so a chunk's
/// own lines are the group's lines.
proof fn lemma_chunk_from_clean(lines: Seq<Seq<char>>, max: nat, cur: Seq<Seq<char>>, in_code: bool)
    requires
        lines_clean(lines),
        lines_clean(cur),
    ensures
        forall|i: int|
            0 <= i < chunk_from(lines, max, cur, in_code).len() ==> lines_clean(
                #[trigger] chunk_from(lines, max, cur, in_code)[i],
            ),
    decreases lines.len(),
{
    if lines.len() == 0 {
        if cur.len() > 0 {
            assert(chunk_from(lines, max, cur, in_code) =~= seq![cur]);
            assert(chunk_from(lines, max, cur, in_code)[0] == cur);
        }
    } else {
        let l = lines[0];
        let rest = lines.drop_first();
        assert(lines_clean(rest)) by {
            assert(forall|i: int, j: int|
                0 <= i < rest.len() && 0 <= j < rest[i].len() ==> #[trigger] rest[i][j] == lines[i
                    + 1][j]);
        }
        assert(lines_clean(cur.push(l))) by {
            assert(forall|j: int| 0 <= j < l.len() ==> #[trigger] l[j] == lines[0][j]);
            assert(forall|i: int, j: int|
                0 <= i < cur.push(l).len() && 0 <= j < cur.push(l)[i].len() ==> #[trigger] cur.push(
                    l,
                )[i][j] != '\n');
        }
        assert(lines_clean(seq![l])) by {
            assert(forall|j: int| 0 <= j < l.len() ==> #[trigger] l[j] == lines[0][j]);
            assert(forall|i: int, j: int|
                0 <= i < seq![l].len() && 0 <= j < seq![l][i].len() ==> #[trigger] seq![l][i][j]
                    != '\n');
        }
        if l.len() == 0 {
            lemma_chunk_from_clean(rest, max, cur.push(l), in_code);
            assert(chunk_from(lines, max, cur, in_code) == chunk_from(rest, max, cur.push(l), in_code));
        } else if is_fence(l) {
            lemma_chunk_from_clean(rest, max, cur.push(l), !in_code);
            assert(chunk_from(lines, max, cur, in_code) == chunk_from(rest, max, cur.push(l), !in_code));
        } else if in_code || normalized_text(cur).len() + l.len() < max {
            lemma_chunk_from_clean(rest, max, cur.push(l), in_code);
            assert(chunk_from(lines, max, cur, in_code) == chunk_from(rest, max, cur.push(l), in_code));
        } else if cur.len() == 0 {
            lemma_chunk_from_clean(rest, max, seq![l], in_code);
            assert(chunk_from(lines, max, cur, in_code) == chunk_from(rest, max, seq![l], in_code));
        } else {
            lemma_chunk_from_clean(rest, max, seq![l], in_code);
            let tail = chunk_from(rest, max, seq![l], in_code);
            let out = seq![cur] + tail;
            assert(chunk_from(lines, max, cur, in_code) == out);
            assert forall|i: int| 0 <= i < out.len() implies lines_clean(#[trigger] out[i]) by {
                if i == 0 {
                    assert(out[0] == cur);
                } else {
                    assert(out[i] == tail[i - 1]);
                }
            }
        }
    }
}

/// A chunk boundary never falls inside a fenced code region, stated of
/// the chunk strings themselves: when a text holds balanced fences,
/// every chunk's own text holds an even number of fence-marker lines, so
/// the fence-nesting state is "outside" at every chunk boundary.
pub proof fn lemma_chunk_text_fences(text: Seq<char>, max: nat)
    requires
        fence_count(lines_of(text)) % 2 == 0,
    ensures
        forall|i: int|
            0 <= i < chunks_of(text, max).len() ==> fence_count(
                lines_of(#[trigger] chunks_of(text, max)[i]),
            ) % 2 == 0,
{
    lemma_chunks_respect_fences(text, max);
    lemma_chunk_from_groups_nonempty(lines_of(text), max, Seq::empty(), false);
    assert(lines_clean(lines_of(text))) by {
        if text.len() == 0 {
        } else if text.last() == '\n' {
            lemma_split_newlines_clean(text.drop_last());
        } else {
            lemma_split_newlines_clean(text);
        }
    }
    assert(lines_clean(Seq::<Seq<char>>::empty()));
    lemma_chunk_from_clean(lines_of(text), max, Seq::empty(), false);
    assert forall|i: int| 0 <= i < chunks_of(text, max).len() implies fence_count(
        lines_of(#[trigger] chunks_of(text, max)[i]),
    ) % 2 == 0 by {
        let g = chunk_groups(lines_of(text), max)[i];
        assert(chunks_of(text, max)[i] == normalized_text(g));
        assert(g.len() > 0);
        assert(lines_clean(g));
        lemma_normalized_is_joined_expand(g);
        lemma_expand_clean(g);
        lemma_expand_fences(g);
        lemma_split_of_joined(expand(g));
        assert(lines_of(normalized_text(g)) == expand(g)) by {
            assert(normalized_text(g).len() > 0) by {
                lemma_joined_len(expand(g));
            }
            assert(normalized_text(g).last() == '\n');
            assert(lines_of(normalized_text(g)) == split_newlines(
                normalized_text(g).drop_last(),
            ));
            assert(normalized_text(g).drop_last() =~= joined(expand(g)).drop_last());
        }
        assert(fence_count(g) % 2 == 0);
    }
}

/// Every line group that becomes a chunk holds at least one line, so no
/// chunk is ever the empty string.
pub proof fn lemma_chunks_nonempty(text: Seq<char>, max: nat)
    ensures
        text.len() > 0 ==> chunks_of(text, max).len() >= 1,
        forall|i: int| 0 <= i < chunks_of(text, max).len() ==> #[trigger] chunks_of(text, max)[i].len() > 0,
{
    if text.len() > 0 {
        if text.last() == '\n' {
            lemma_split_newlines_nonempty(text.drop_last());
        } else {
            lemma_split_newlines_nonempty(text);
        }
        lemma_chunk_from_nonempty(lines_of(text), max, Seq::empty(), false);
    }
    lemma_chunk_from_groups_nonempty(lines_of(text), max, Seq::empty(), false);
    assert forall|i: int| 0 <= i < chunks_of(text, max).len() implies #[trigger] chunks_of(
        text,
        max,
    )[i].len() > 0 by {
        let g = chunk_groups(lines_of(text), max)[i];
        assert(g.len() > 0);
        lemma_normalized_len(g);
        assert(chunks_of(text, max)[i] == normalized_text(g));
    }
}

proof fn lemma_chars_dv(v: Vec<char>)
    ensures
        v.deep_view() == v@,
{
    assert forall|i: int| 0 <= i < v.deep_view().len() implies v.deep_view()[i] == v@[i] by {
        assert(v.deep_view()[i] == v@[i].deep_view());
    }
    assert(v.deep_view() =~= v@);
}

/// Collects the characters of `text` into a vector.
fn text_chars(text: &str) -> (r: Vec<char>)
    ensures
        r@ == text@,
{
    let n = text.unicode_len();
    let mut r: Vec<char> = Vec::new();
    let mut i: usize = 0;
    while i < n
        invariant
            n == text@.len(),
            i <= n,
            r@ == text@.take(i as int),
        decreases n - i,
    {
        r.push(text.get_char(i));
        i = i + 1;
        proof {
            assert(r@ =~= text@.take(i as int));
        }
    }
    proof {
        assert(r@ =~= text@);
    }
    r
}

/// Splits the characters of a text into its lines.
fn split_lines(chars: &Vec<char>) -> (r: Vec<Vec<char>>)
    ensures
        r.deep_view() == lines_of(chars@),
{
    let mut r: Vec<Vec<char>> = Vec::new();
    if chars.len() == 0 {
        proof {
            assert(r.deep_view() =~= lines_of(chars@));
        }
        return r;
    }
    let m: usize = if chars[chars.len() - 1] == '\n' {
        chars.len() - 1
    } else {
        chars.len()
    };
    let ghost s = chars@.take(m as int);
    proof {
        if chars@.last() == '\n' {
            assert(s =~= chars@.drop_last());
        } else {
            assert(s =~= chars@);
        }
    }
    let mut cur: Vec<char> = Vec::new();
    let mut start: usize = 0;
    let mut i: usize = 0;
    proof {
        assert(r.deep_view() =~= Seq::<Seq<char>>::empty());
        assert(s.skip(0) =~= s);
        assert(Seq::<Seq<char>>::empty() + split_newlines(s) =~= split_newlines(s));
        assert(cur@ =~= s.subrange(0, 0));
    }
    while i < m
        invariant
            m <= chars@.len(),
            s == chars@.take(m as int),
            start <= i <= m,
            cur@ == s.subrange(start as int, i as int),
            forall|j: int| start <= j < i ==> s[j] != '\n',
            split_newlines(s) == r.deep_view() + split_newlines(s.skip(start as int)),
        decreases m - i,
    {
        let c = chars[i];
        if c == '\n' {
            proof {
                let t = s.skip(start as int);
                lemma_first_newline(t);
                assert(t[i - start] == '\n');
                assert(t.contains('\n'));
                assert(forall|j: int| 0 <= j < i - start ==> t[j] != '\n');
                assert(first_newline(t) == i - start);
                assert(t.take(i - start) =~= cur@);
                assert(t.skip(i - start + 1) =~= s.skip(i + 1));
                assert(split_newlines(t) == seq![cur@] + split_newlines(s.skip(i + 1)));
            }
            let ghost rdv = r.deep_view();
            let ghost curv = cur@;
            proof {
                lemma_chars_dv(cur);
            }
            r.push(cur);
            cur = Vec::new();
            proof {
                assert forall|j: int| 0 <= j < r.deep_view().len() implies r.deep_view()[j]
                    == rdv.push(curv)[j] by {
                    assert(r.deep_view()[j] == r@[j].deep_view());
                }
                assert(r.deep_view() =~= rdv.push(curv));
                assert(rdv.push(curv) + split_newlines(s.skip(i + 1)) =~= rdv + (seq![curv]
                    + split_newlines(s.skip(i + 1))));
                assert(split_newlines(s) == r.deep_view() + split_newlines(s.skip(i + 1)));
            }
            start = i + 1;
            i = i + 1;
            proof {
                assert(cur@ =~= s.subrange(start as int, i as int));
            }
        } else {
            cur.push(c);
            i = i + 1;
            proof {
                assert(cur@ =~= s.subrange(start as int, i as int));
            }
        }
    }
    proof {
        let t = s.skip(start as int);
        assert(forall|j: int| 0 <= j < t.len() ==> t[j] != '\n');
        if t.contains('\n') {
            let w = choose|w: int| 0 <= w < t.len() && t[w] == '\n';
            assert(false);
        }
        assert(split_newlines(t) == seq![t]);
        assert(t =~= cur@);
    }
    let ghost rdv = r.deep_view();
    let ghost curv = cur@;
    proof {
        lemma_chars_dv(cur);
    }
    r.push(cur);
    proof {
        assert forall|j: int| 0 <= j < r.deep_view().len() implies r.deep_view()[j] == rdv.push(
            curv,
        )[j] by {
            assert(r.deep_view()[j] == r@[j].deep_view());
        }
        assert(r.deep_view() =~= rdv.push(curv));
        assert(rdv.push(curv) =~= rdv + seq![curv]);
        assert(r.deep_view() =~= lines_of(chars@));
    }
    r
}

/// Relies on collecting an iterator of characters into `String`: the
/// resulting string holds exactly the characters of `v` in order.
#[verifier::external_body]
pub(crate) fn chars_to_string(v: &Vec<char>) -> (r: String)
    ensures
        r@ == v@,
{
    v.iter().collect()
}

/// Appends line `line` and a newline to `buffer`.
fn push_line(buffer: &mut Vec<char>, line: &Vec<char>)
    ensures
        final(buffer)@ == old(buffer)@ + line@ + seq!['\n'],
{
    let mut j: usize = 0;
    while j < line.len()
        invariant
            j <= line@.len(),
            buffer@ == old(buffer)@ + line@.take(j as int),
        decreases line@.len() - j,
    {
        buffer.push(line[j]);
        j = j + 1;
        proof {
            assert(buffer@ =~= old(buffer)@ + line@.take(j as int));
        }
    }
    buffer.push('\n');
    proof {
        assert(buffer@ =~= old(buffer)@ + line@ + seq!['\n']);
    }
}

/// Does `line` start with three backticks?
fn line_is_fence(line: &Vec<char>) -> (r: bool)
    ensures
        r == is_fence(line@),
{
    line.len() >= 3 && line[0] == '`' && line[1] == '`' && line[2] == '`'
}

/// Splits a text into chunks of at most roughly `max_chars` characters,
/// never splitting inside a fenced code region.
///
/// The text is consumed line by line.  A blank line joins the open chunk
/// as a double newline; a fence line joins it and toggles the fenced
/// state; any other line joins it while the scan is fenced or while the
/// chunk stays below `max_chars` characters, and otherwise closes the open
/// chunk and starts the next one.  An empty text yields no chunks; any
/// other text yields at least one.
pub fn split_into_chunks(text: &str, max_chars: usize) -> (r: Vec<String>)
    ensures
        r.deep_view() == chunks_of(text@, max_chars as nat),
        text@.len() == 0 ==> r@.len() == 0,
        text@.len() > 0 ==> r@.len() >= 1,
        forall|i: int| 0 <= i < r@.len() ==> #[trigger] r.deep_view()[i].len() > 0,
{
    let chars = text_chars(text);
    let lines = split_lines(&chars);
    let ghost all = lines.deep_view();
    let ghost max = max_chars as nat;
    let mut out: Vec<Vec<char>> = Vec::new();
    let ghost mut done: Seq<Seq<Seq<char>>> = Seq::empty();
    let ghost mut cur: Seq<Seq<char>> = Seq::empty();
    let mut buffer: Vec<char> = Vec::new();
    let mut in_code: bool = false;
    let mut i: usize = 0;
    proof {
        assert(out.deep_view() =~= done.map_values(|g: Seq<Seq<char>>| normalized_text(g)));
        assert(all.skip(0) =~= all);
    }
    while i < lines.len()
        invariant
            i <= lines@.len(),
            all == lines.deep_view(),
            max == max_chars as nat,
            buffer@ == normalized_text(cur),
            out.deep_view() == done.map_values(|g: Seq<Seq<char>>| normalized_text(g)),
            chunk_groups(all, max) == done + chunk_from(all.skip(i as int), max, cur, in_code),
        decreases lines@.len() - i,
    {
        let line = &lines[i];
        let ghost l = all[i as int];
        let ghost rest = all.skip(i as int + 1);
        proof {
            lemma_chars_dv(lines@[i as int]);
            assert(line@ == l);
            assert(all.skip(i as int)[0] == l);
            assert(all.skip(i as int).drop_first() =~= rest);
        }
        if line.len() == 0 {
            buffer.push('\n');
            buffer.push('\n');
            proof {
                lemma_normalized_push(cur, l);
                assert(buffer@ =~= normalized_text(cur.push(l)));
            }
            proof {
                cur = cur.push(l);
            }
        } else if line_is_fence(line) {
            push_line(&mut buffer, line);
            proof {
                lemma_normalized_push(cur, l);
                assert(buffer@ =~= normalized_text(cur.push(l)));
                cur = cur.push(l);
            }
            in_code = !in_code;
        } else if in_code || (buffer.len() < max_chars && line.len() < max_chars - buffer.len()) {
            proof {
                assert(in_code || normalized_text(cur).len() + l.len() < max);
            }
            push_line(&mut buffer, line);
            proof {
                lemma_normalized_push(cur, l);
                assert(buffer@ =~= normalized_text(cur.push(l)));
                cur = cur.push(l);
            }
        } else {
            proof {
                assert(!(normalized_text(cur).len() + l.len() < max));
            }
            if buffer.len() > 0 {
                proof {
                    lemma_normalized_len(cur);
                }
                let ghost odv = out.deep_view();
                proof {
                    lemma_chars_dv(buffer);
                }
                out.push(buffer);
                buffer = Vec::new();
                proof {
                    let f = |g: Seq<Seq<char>>| normalized_text(g);
                    assert forall|j: int| 0 <= j < out.deep_view().len() implies out.deep_view()[j]
                        == odv.push(normalized_text(cur))[j] by {
                        assert(out.deep_view()[j] == out@[j].deep_view());
                    }
                    assert(out.deep_view() =~= odv.push(normalized_text(cur)));
                    assert(out.deep_view() =~= done.push(cur).map_values(f));
                    assert(done + (seq![cur] + chunk_from(rest, max, seq![l], in_code)) =~= done.push(
                        cur,
                    ) + chunk_from(rest, max, seq![l], in_code));
                    done = done.push(cur);
                }
            } else {
                proof {
                    lemma_normalized_len(cur);
                    assert(cur.len() == 0);
                }
            }
            push_line(&mut buffer, line);
            proof {
                lemma_normalized_push(Seq::empty(), l);
                assert(Seq::<Seq<char>>::empty().push(l) =~= seq![l]);
                assert(buffer@ =~= normalized_text(seq![l]));
                cur = seq![l];
            }
        }
        i = i + 1;
    }
    proof {
        assert(all.skip(i as int) =~= Seq::<Seq<char>>::empty());
    }
    if buffer.len() > 0 {
        proof {
            lemma_normalized_len(cur);
        }
        let ghost odv = out.deep_view();
        proof {
            lemma_chars_dv(buffer);
        }
        out.push(buffer);
        proof {
            let f = |g: Seq<Seq<char>>| normalized_text(g);
            assert forall|j: int| 0 <= j < out.deep_view().len() implies out.deep_view()[j]
                == odv.push(normalized_text(cur))[j] by {
                assert(out.deep_view()[j] == out@[j].deep_view());
            }
            assert(out.deep_view() =~= odv.push(normalized_text(cur)));
            assert(out.deep_view() =~= done.push(cur).map_values(f));
            assert(done + chunk_from(Seq::empty(), max, cur, in_code) =~= done.push(cur));
            done = done.push(cur);
        }
    } else {
        proof {
            lemma_normalized_len(cur);
            assert(cur.len() == 0);
            assert(done + chunk_from(Seq::empty(), max, cur, in_code) =~= done);
        }
    }
    let mut r: Vec<String> = Vec::new();
    let mut k: usize = 0;
    while k < out.len()
        invariant
            k <= out@.len(),
            r@.len() == k,
            forall|j: int| 0 <= j < k ==> #[trigger] r@[j]@ == out.deep_view()[j],
        decreases out@.len() - k,
    {
        let t = chars_to_string(&out[k]);
        proof {
            lemma_chars_dv(out@[k as int]);
            assert(out.deep_view()[k as int] == out@[k as int].deep_view());
        }
        r.push(t);
        k = k + 1;
    }
    proof {
        assert forall|j: int| 0 <= j < r.deep_view().len() implies r.deep_view()[j]
            == out.deep_view()[j] by {
            assert(r.deep_view()[j] == r@[j].deep_view());
        }
        assert(r.deep_view() =~= out.deep_view());
        assert(out.deep_view() == chunk_groups(lines_of(text@), max).map_values(
            |g: Seq<Seq<char>>| normalized_text(g),
        ));
        if text@.len() == 0 {
            assert(lines_of(text@).len() == 0);
        }
        lemma_chunks_nonempty(text@, max);
    }
    r
}

} // verus!
