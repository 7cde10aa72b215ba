//! What publishing scripts changes in the files that are written.
use crate::bytes;
use crate::error::Stop;
use crate::laws;
use crate::layout;
use crate::layout::Block;
use crate::names::VERB;
use crate::output;
use crate::output::{FileView, OutputView, ScriptView};
use crate::text;
use crate::walk;
use crate::walk::{ContainerView, Game};
use crate::writing;
use crate::writing::Texts;
use vstd::prelude::*;

verus! {

/// Whether a file is a published script.
pub open spec fn is_published(file: FileView) -> bool {
    "scripts/"@.is_prefix_of(file.path)
}

/// Whether a path goes on from the directory that a disk is unpacked into.
pub open spec fn from_root(path: Seq<char>) -> bool {
    "./"@.is_prefix_of(path)
}

/// Whether the output goes to a path that goes on from the directory that a disk is unpacked into.
pub open spec fn output_from_root(out: OutputView) -> bool {
    match out {
        OutputView::Block(file) => from_root(file.path),
        OutputView::Listing(file) => from_root(file.path),
        OutputView::Script(script) => from_root(script.stem),
    }
}

/// Whether all outputs go to paths that go on from the directory that a disk is unpacked into.
pub open spec fn all_from_root(outs: Seq<OutputView>) -> bool {
    forall|i: int| 0 <= i < outs.len() ==> output_from_root(#[trigger] outs[i])
}

/// The files that are no published scripts.
pub open spec fn unpublished(files: Seq<FileView>) -> Seq<FileView> {
    files.filter(|file: FileView| !is_published(file))
}

/// What goes on from a path that goes on does so too, and is no published script.
proof fn lemma_goes_on(path: Seq<char>, more: Seq<char>)
    requires
        from_root(path),
    ensures
        from_root(path + more),
        !"scripts/"@.is_prefix_of(path),
{
    reveal_strlit("./");
    reveal_strlit("scripts/");
    assert("./"@ =~= (path + more).subrange(0, 2)) by {
        assert(path.subrange(0, 2)[0] == path[0]);
        assert(path.subrange(0, 2)[1] == path[1]);
    }
    if "scripts/"@.is_prefix_of(path) {
        assert(path.subrange(0, 2)[0] == path[0]);
        assert(path.subrange(0, 8)[0] == path[0]);
    }
}

/// Whether everything in a directory with this path goes on from the directory that a disk is
/// unpacked into.
pub open spec fn rooted(path: Seq<char>) -> bool {
    from_root(path + "/"@)
}

/// What stands in a rooted directory goes on from the root.
proof fn lemma_rooted(path: Seq<char>, name: Seq<char>)
    requires
        rooted(path),
    ensures
        from_root(path + "/"@ + name),
        rooted(path + "/"@ + name),
{
    lemma_goes_on(path + "/"@, name);
    lemma_goes_on(path + "/"@ + name, "/"@);
}

/// The parent of what goes on from the root is rooted.
proof fn lemma_parent_is_rooted(path: Seq<char>)
    requires
        from_root(path),
    ensures
        rooted(text::parent(path)),
{
    reveal_strlit("./");
    reveal_strlit("/");
    assert(path.subrange(0, 2)[0] == path[0]);
    assert(path.subrange(0, 2)[1] == path[1]);
    text::lemma_last_slash(path);
    assert(text::last_slash(path) >= 1);
    assert("./"@ =~= (text::parent(path) + "/"@).subrange(0, 2));
}

/// Outputs of two runs go on from the root if those of each do.
proof fn lemma_both_from_root(a: Seq<OutputView>, b: Seq<OutputView>)
    requires
        all_from_root(a),
        all_from_root(b),
    ensures
        all_from_root(a + b),
{
    assert forall|i: int| 0 <= i < (a + b).len() implies output_from_root(#[trigger] (a + b)[i]) by {
        if i < a.len() {
            assert((a + b)[i] == a[i]);
        } else {
            assert((a + b)[i] == b[i - a.len()]);
        }
    }
}

/// The verbs of an object go to the directory of the container.
proof fn lemma_verbs_from_root(g: Game, c: ContainerView, content: Seq<u8>, pos: int)
    requires
        rooted(c.path),
    ensures
        all_from_root(walk::verbs(g, c, content, pos).outs),
        walk::verbs(g, c, content, pos).container == c,
    decreases content.len() - pos,
{
    if let Some((number, _)) = walk::verb_at(content, pos) {
        lemma_verbs_from_root(g, c, content, pos + 3);
        lemma_rooted(c.path, text::id_num(VERB@, number as int));
    }
}

/// What a block with raw content comes to goes to the directory of the container.
proof fn lemma_flat_from_root(
    g: Game,
    c: ContainerView,
    id: Seq<u8>,
    offset: int,
    content: Seq<u8>,
)
    requires
        rooted(c.path),
    ensures
        all_from_root(walk::walk_flat(g, c, id, offset, content).outs),
        walk::walk_flat(g, c, id, offset, content).container.path == c.path,
{
    if let Ok((number, c1)) = walk::number_flat(g, c, id, offset, content) {
        let name = text::id_num(id, number as int);
        let c2 = walk::listed(c1, name);
        lemma_rooted(c.path, name);
        lemma_goes_on(c.path + "/"@ + name, ".bin"@);
        lemma_verbs_from_root(g, c2, content, 0);
        let file = OutputView::Block(
            FileView { path: walk::path_in(c2, name) + ".bin"@, data: content },
        );
        let rest = walk::scripts(g, c2, id, number, content);
        lemma_both_from_root(seq![file], rest.outs);
    }
}

/// What a block comes to goes to paths that go on from the root.
proof fn lemma_block_from_root(g: Game, block: Block, c: ContainerView)
    requires
        rooted(c.path),
    ensures
        all_from_root(walk::walk_block(g, block, c).outs),
        walk::walk_block(g, block, c).end is Ok ==> rooted(
            walk::walk_block(g, block, c).container.path,
        ),
    decreases block,
{
    match block {
        Block::Flat { id, offset, content } => {
            lemma_flat_from_root(g, c, id, offset, content);
        },
        Block::Nested { id, offset, blocks, end } => {
            if let Ok((number, c1)) = walk::number_nested(g, c, id, offset) {
                let name = text::id_num(id, number as int);
                let inside = walk::opened(walk::listed(c1, name), name);
                let inner = walk::walk(g, blocks, end, inside);
                lemma_rooted(c.path, name);
                law_outputs_go_on_from_the_root(g, blocks, end, inside);
                if inner.end is Ok {
                    walk::law_paths_go_on(g, blocks, end, inside);
                    let path = inner.container.path;
                    assert(from_root(path)) by {
                        reveal_strlit("./");
                        assert forall|i: int| 0 <= i < 2 implies path[i] == inside.path[i] by {
                            assert(path.subrange(0, inside.path.len() as int)[i] == path[i]);
                        }
                        assert(path.subrange(0, 2) =~= inside.path.subrange(0, 2));
                    }
                    lemma_goes_on(path, "/.map"@);
                    lemma_parent_is_rooted(path);
                    lemma_both_from_root(inner.outs, seq![walk::listing(inner.container)]);
                    assert(inner.outs + seq![walk::listing(inner.container)]
                        =~= inner.outs.push(walk::listing(inner.container)));
                }
            }
        },
    }
}

/// Whatever blocks come to goes to paths that go on from the directory that a disk is unpacked into,
/// if the container of the blocks does.
pub proof fn law_outputs_go_on_from_the_root(
    g: Game,
    blocks: Seq<Block>,
    end: Result<(), Stop>,
    c: ContainerView,
)
    requires
        rooted(c.path),
    ensures
        all_from_root(walk::walk(g, blocks, end, c).outs),
        walk::walk(g, blocks, end, c).end is Ok ==> rooted(
            walk::walk(g, blocks, end, c).container.path,
        ),
    decreases blocks,
{
    if blocks.len() > 0 {
        let first = walk::walk_block(g, blocks[0], c);
        lemma_block_from_root(g, blocks[0], c);
        if first.end is Ok {
            let rest = walk::walk(g, blocks.drop_first(), end, first.container);
            law_outputs_go_on_from_the_root(g, blocks.drop_first(), end, first.container);
            lemma_both_from_root(first.outs, rest.outs);
        }
    }
}

/// Whatever a file comes to goes to paths that go on from the directory that a disk is unpacked into.
pub proof fn law_file_goes_on_from_the_root(g: Game, file: Seq<u8>)
    ensures
        all_from_root(walk::extraction(g, file).0),
{
    let d = bytes::masked(file, bytes::NICE);
    let f = layout::forest(d, 0, d.len() as int);
    let run = walk::walk_file(g, file);
    assert(rooted(walk::root().path)) by {
        reveal_strlit(".");
        reveal_strlit("/");
        reveal_strlit("./");
        assert("./"@ =~= ("."@ + "/"@).subrange(0, 2));
    }
    law_outputs_go_on_from_the_root(g, f.blocks, f.end, walk::root());
    if run.end is Ok {
        let list = walk::listing(run.container);
        assert(from_root(run.container.path + "/.map"@)) by {
            reveal_strlit("/");
            reveal_strlit("/.map");
            reveal_strlit(".map");
            lemma_goes_on(run.container.path + "/"@, ".map"@);
            assert(run.container.path + "/"@ + ".map"@ =~= run.container.path + "/.map"@);
        }
        lemma_both_from_root(run.outs, seq![list]);
        assert(run.outs + seq![list] =~= run.outs.push(list));
    }
}

/// Where a script is published is no path that goes on from the root.
proof fn lemma_published_path(file: FileView, script: ScriptView, name: Option<Seq<char>>)
    requires
        file.path == output::published_path(script.scope, script.number as int, name),
    ensures
        is_published(file),
{
    reveal_strlit("scripts/");
    assert("scripts/"@ =~= file.path.subrange(0, 8));
}

/// Taking one file out of a list, or leaving it in.
proof fn lemma_unpublished_one(file: FileView)
    ensures
        unpublished(seq![file]) == if is_published(file) {
            Seq::empty()
        } else {
            seq![file]
        },
{
    reveal(Seq::filter);
    let pred = |file: FileView| !is_published(file);
    assert(seq![file].drop_last() =~= Seq::empty());
    assert(seq![file].drop_last().filter(pred) =~= Seq::empty());
    assert(unpublished(seq![file]) =~= if is_published(file) {
        Seq::empty()
    } else {
        seq![file]
    });
}

/// Taking the published scripts out of two lists.
proof fn lemma_unpublished_add(a: Seq<FileView>, b: Seq<FileView>)
    ensures
        unpublished(a + b) == unpublished(a) + unpublished(b),
{
    Seq::filter_distributes_over_add(a, b, |file: FileView| !is_published(file));
}

/// A script with the mark that it is to be published set to `publish`.
pub open spec fn remarked(script: ScriptView, publish: bool) -> ScriptView {
    ScriptView { publish, ..script }
}

/// Whether the texts of scripts do not depend on whether they are published.
pub open spec fn texts_unmarked(texts: spec_fn(ScriptView) -> Texts) -> bool {
    forall|script: ScriptView, publish: bool|
        texts(#[trigger] remarked(script, publish)) == texts(script)
}

/// Publishing adds published scripts, if any, to the files of an output.
proof fn lemma_output_publishes(out: OutputView, texts: spec_fn(ScriptView) -> Texts)
    requires
        output_from_root(out),
        texts_unmarked(texts),
    ensures
        ({
            let more = writing::output_files(laws::marked(out, true), texts);
            let less = writing::output_files(laws::marked(out, false), texts);
            &&& unpublished(more) == less
            &&& forall|i: int| 0 <= i < less.len() ==> from_root((#[trigger] less[i]).path)
        }),
{
    let more = writing::output_files(laws::marked(out, true), texts);
    let less = writing::output_files(laws::marked(out, false), texts);
    match out {
        OutputView::Block(file) => {
            lemma_goes_on(file.path, Seq::empty());
            lemma_unpublished_one(file);
        },
        OutputView::Listing(file) => {
            lemma_goes_on(file.path, Seq::empty());
            lemma_unpublished_one(file);
        },
        OutputView::Script(script) => {
            let t = texts(script);
            assert(texts(remarked(script, true)) == t);
            assert(texts(remarked(script, false)) == t);
            let (disasm, decomp, published) = (more[0], more[1], more[2]);
            assert(less =~= seq![disasm] + seq![decomp]);
            assert(more =~= seq![disasm] + seq![decomp] + seq![published]);
            lemma_goes_on(script.stem, ".s"@);
            lemma_goes_on(script.stem, ".scu"@);
            lemma_goes_on(disasm.path, Seq::empty());
            lemma_goes_on(decomp.path, Seq::empty());
            lemma_published_path(published, script, t.name);
            lemma_unpublished_add(seq![disasm] + seq![decomp], seq![published]);
            lemma_unpublished_add(seq![disasm], seq![decomp]);
            lemma_unpublished_one(disasm);
            lemma_unpublished_one(decomp);
            lemma_unpublished_one(published);
            assert(unpublished(more) =~= less);
        },
    }
}

/// Publishing adds published scripts, if any, to the files of outputs.
proof fn lemma_outputs_publish(outs: Seq<OutputView>, texts: spec_fn(ScriptView) -> Texts)
    requires
        all_from_root(outs),
        texts_unmarked(texts),
    ensures
        ({
            let more = writing::planned(laws::all_marked(outs, true), texts);
            let less = writing::planned(laws::all_marked(outs, false), texts);
            &&& unpublished(more) == less
            &&& forall|i: int| 0 <= i < less.len() ==> from_root((#[trigger] less[i]).path)
        }),
    decreases outs.len(),
{
    let (outs1, outs0) = (laws::all_marked(outs, true), laws::all_marked(outs, false));
    if outs.len() == 0 {
        reveal(Seq::filter);
        assert(unpublished(writing::planned(outs1, texts)) =~= writing::planned(outs0, texts));
    } else {
        let rest = outs.drop_first();
        assert forall|i: int| 0 <= i < rest.len() implies output_from_root(#[trigger] rest[i]) by {
            assert(rest[i] == outs[i + 1]);
        }
        assert(output_from_root(outs[0]));
        lemma_outputs_publish(rest, texts);
        lemma_output_publishes(outs[0], texts);
        assert(outs1.drop_first() =~= laws::all_marked(rest, true));
        assert(outs0.drop_first() =~= laws::all_marked(rest, false));
        let more = writing::output_files(outs1[0], texts);
        let less = writing::output_files(outs0[0], texts);
        let more_rest = writing::planned(outs1.drop_first(), texts);
        let less_rest = writing::planned(outs0.drop_first(), texts);
        lemma_unpublished_add(more, more_rest);
        assert forall|i: int| 0 <= i < (less + less_rest).len() implies from_root(
            (#[trigger] (less + less_rest)[i]).path,
        ) by {
            if i < less.len() {
                assert((less + less_rest)[i] == less[i]);
            } else {
                assert((less + less_rest)[i] == less_rest[i - less.len()]);
            }
        }
    }
}

/// Publishing only adds files: without the published scripts, the files of a run that publishes are
/// those of a run that does not, in the same order and with the same contents, and the two runs come
/// to the same end. All of these files go to paths that go on from the directory that a disk is
/// unpacked into, so none of them is a published script.
pub proof fn law_publishing_only_adds_files(
    g: Game,
    file: Seq<u8>,
    texts: spec_fn(ScriptView) -> Texts,
)
    requires
        texts_unmarked(texts),
    ensures
        ({
            let (outs1, end1) = walk::extraction(Game { publish: true, ..g }, file);
            let (outs0, end0) = walk::extraction(Game { publish: false, ..g }, file);
            let more = writing::planned(outs1, texts);
            let less = writing::planned(outs0, texts);
            &&& end1 == end0
            &&& unpublished(more) == less
            &&& forall|i: int|
                0 <= i < less.len() ==> from_root((#[trigger] less[i]).path) && !is_published(
                    less[i],
                )
        }),
{
    let outs = walk::extraction(g, file).0;
    laws::law_publishing_only_marks_in_files(g, true, file);
    laws::law_publishing_only_marks_in_files(g, false, file);
    law_file_goes_on_from_the_root(g, file);
    lemma_outputs_publish(outs, texts);
    let less = writing::planned(laws::all_marked(outs, false), texts);
    assert forall|i: int| 0 <= i < less.len() implies from_root((#[trigger] less[i]).path)
        && !is_published(less[i]) by {
        lemma_goes_on(less[i].path, Seq::empty());
    }
}

} // verus!
