//! Putting a disk together again from the files that it was unpacked into.
use crate::bytes;
use crate::error::Stop;
use crate::laws;
use crate::layout;
use crate::layout::Block;
use crate::output::{FileView, OutputView, ScriptView};
use crate::text;
use crate::walk;
use crate::walk::{ContainerView, Game};
use crate::writing;
use crate::writing::Texts;
use vstd::prelude::*;
use vstd::utf8::*;

verus! {

/// The lines of a text in which every line is ended.
pub open spec fn text_lines(s: Seq<char>) -> Seq<Seq<char>>
    decreases s.len(),
    via text_lines_decreases
{
    if s.len() == 0 {
        Seq::empty()
    } else {
        let cut = line_start(s);
        text_lines(s.take(cut)).push(s.subrange(cut, s.len() - 1))
    }
}

/// Where the last line of a text starts.
pub open spec fn line_start(s: Seq<char>) -> int {
    match s.drop_last().index_of_last('\n') {
        Some(k) => k + 1,
        None => 0,
    }
}

#[via_fn]
proof fn text_lines_decreases(s: Seq<char>) {
    s.drop_last().index_of_last_ensures('\n');
}

/// The bytes of the blocks with these names in the directory `path`. A block with raw content has a
/// file of its name; any other is a directory of its name, which is followed up to `depth`
/// directories deep.
pub open spec fn rebuilt_blocks(
    files: Map<Seq<char>, Seq<u8>>,
    path: Seq<char>,
    names: Seq<Seq<char>>,
    depth: nat,
) -> Seq<u8>
    decreases depth, names.len(),
{
    if names.len() == 0 {
        Seq::empty()
    } else {
        let own = path + "/"@ + names[0];
        let content = if files.contains_key(own + ".bin"@) {
            files[own + ".bin"@]
        } else if depth > 0 {
            rebuilt_blocks(files, own, listed_names(files, own), (depth - 1) as nat)
        } else {
            Seq::empty()
        };
        layout::framed(encode_utf8(names[0]).take(4), content) + rebuilt_blocks(
            files,
            path,
            names.drop_first(),
            depth,
        )
    }
}

/// The names that the list in the directory `path` gives.
pub open spec fn listed_names(files: Map<Seq<char>, Seq<u8>>, path: Seq<char>) -> Seq<Seq<char>> {
    text_lines(decode_utf8(files[path + "/.map"@]))
}

/// The bytes of the blocks that the list in the directory `path` gives.
pub open spec fn rebuilt(
    files: Map<Seq<char>, Seq<u8>>,
    path: Seq<char>,
    depth: nat,
) -> Seq<u8> {
    rebuilt_blocks(files, path, listed_names(files, path), depth)
}

/// Whether the content of every block and every list among the outputs stands at its path.
pub open spec fn stands(files: Map<Seq<char>, Seq<u8>>, outs: Seq<OutputView>) -> bool {
    forall|i: int| 0 <= i < outs.len() ==> output_stands(files, #[trigger] outs[i])
}

/// Whether the output's content stands at its path, if it is a block or a list.
pub open spec fn output_stands(files: Map<Seq<char>, Seq<u8>>, out: OutputView) -> bool {
    match out {
        OutputView::Block(file) => files.contains_key(file.path) && files[file.path] == file.data,
        OutputView::Listing(file) => files.contains_key(file.path) && files[file.path] == file.data,
        OutputView::Script(_) => true,
    }
}

/// Whether no name is both that of a block with raw content and that of a directory.
pub open spec fn told_apart(files: Map<Seq<char>, Seq<u8>>) -> bool {
    forall|name: Seq<char>|
        files.contains_key(name + ".bin"@) ==> !(#[trigger] files.contains_key(name + "/.map"@))
}

/// Whether the block and all blocks in it have names of four bytes.
pub open spec fn named(block: Block) -> bool
    decreases block,
{
    match block {
        Block::Flat { id, .. } => id.len() == 4,
        Block::Nested { id, offset, blocks, end } => id.len() == 4 && all_named(blocks),
    }
}

/// Whether the blocks and all blocks in them have names of four bytes.
pub open spec fn all_named(blocks: Seq<Block>) -> bool
    decreases blocks,
{
    blocks.len() > 0 ==> named(blocks[0]) && all_named(blocks.drop_first())
}

/// Whether neither the block nor any block in it has a name with a line break.
pub open spec fn unbroken(block: Block) -> bool
    decreases block,
{
    match block {
        Block::Flat { id, .. } => !text::id_text(id).contains('\n'),
        Block::Nested { id, offset, blocks, end } => !text::id_text(id).contains('\n')
            && all_unbroken(blocks),
    }
}

/// Whether neither the blocks nor any blocks in them have names with a line break.
pub open spec fn all_unbroken(blocks: Seq<Block>) -> bool
    decreases blocks,
{
    blocks.len() > 0 ==> unbroken(blocks[0]) && all_unbroken(blocks.drop_first())
}

/// Blocks that are read from a file have names of four bytes, and so have the blocks in them.
pub proof fn law_all_names_have_four_bytes(d: Seq<u8>, pos: int, end: int)
    requires
        0 <= pos,
    ensures
        all_named(layout::forest(d, pos, end).blocks),
    decreases d.len() - pos,
{
    if pos < end {
        if let Ok(h) = layout::header(d, pos) {
            if let Ok(nested) = layout::nested_at(d, pos + 8, h.len - 8) {
                let f = layout::forest(d, pos, end);
                if nested {
                    law_all_names_have_four_bytes(d, pos + 8, pos + h.len);
                }
                assert(named(f.blocks[0]));
                if pos + h.len <= d.len() {
                    law_all_names_have_four_bytes(d, pos + h.len, end);
                    let rest = layout::forest(d, pos + h.len, end);
                    assert(f.blocks.drop_first() =~= rest.blocks || f.blocks.drop_first()
                        =~= Seq::empty());
                } else {
                    assert(f.blocks.drop_first() =~= Seq::empty());
                }
                assert(all_named(f.blocks.drop_first()));
            }
        }
    }
}

/// Names without line breaks are found again in the lines that they make.
pub proof fn lemma_lines_read_back(names: Seq<Seq<char>>)
    requires
        forall|i: int| 0 <= i < names.len() ==> !(#[trigger] names[i]).contains('\n'),
    ensures
        text_lines(laws::lines(names)) == names,
        names.len() > 0 ==> laws::lines(names).len() > 0 && laws::lines(names).last() == '\n',
    decreases names.len(),
{
    let s = laws::lines(names);
    if names.len() == 0 {
        assert(text_lines(s) =~= names);
    } else {
        reveal_strlit("\n");
        let front = names.drop_last();
        let last = names.last();
        let before = laws::lines(front);
        assert(last == names[names.len() - 1]);
        assert forall|i: int| 0 <= i < front.len() implies !(#[trigger] front[i]).contains('\n') by {
            assert(front[i] == names[i]);
        }
        lemma_lines_read_back(front);
        assert(s.drop_last() =~= before + last);
        let t = s.drop_last();
        t.index_of_last_ensures('\n');
        let cut = line_start(s);
        let n = before.len() as int;
        assert forall|i: int| n <= i < t.len() implies t[i] != '\n' by {
            assert(t[i] == last[i - n]);
        }
        if front.len() > 0 {
            assert(t[n - 1] == '\n');
            assert(t.contains('\n'));
        } else {
            assert(n == 0);
        }
        assert(cut == n);
        assert(s.take(cut) =~= before);
        assert(s.subrange(cut, s.len() - 1) =~= last);
        assert(text_lines(s) =~= names);
    }
}

/// The name under which a block is filed has no line break if its kind has none, and starts with
/// the kind.
proof fn lemma_block_name(id: Seq<u8>, number: int)
    requires
        id.len() == 4,
        valid_utf8(id),
    ensures
        encode_utf8(text::id_num(id, number)).take(4) == id,
        !text::id_text(id).contains('\n') ==> !text::id_num(id, number).contains('\n'),
{
    let name = text::id_num(id, number);
    let tail = "_"@ + text::decimal(number, 2);
    assert(name =~= text::id_text(id) + tail);
    text::lemma_encoded_add(text::id_text(id), tail);
    decode_utf8_encode_utf8(id);
    assert((id + encode_utf8(tail)).take(4) =~= id);
    text::lemma_decimal(number, 2);
    reveal_strlit("_");
    if name.contains('\n') && !text::id_text(id).contains('\n') {
        let k = choose|k: int| 0 <= k < name.len() && name[k] == '\n';
        let n = text::id_text(id).len();
        if k < n {
            assert(text::id_text(id)[k] == '\n');
        } else if k > n {
            assert(text::decimal(number, 2)[k - n - 1] == '\n');
        }
    }
}

/// The names of blocks are that of the first and then those of the rest.
proof fn lemma_first_name(g: Game, blocks: Seq<Block>, c: ContainerView)
    requires
        blocks.len() > 0,
        walk::walk_block(g, blocks[0], c).end is Ok,
    ensures
        ({
            let number = (laws::block_number(g, c, blocks[0])->Ok_0).0;
            laws::block_names(g, blocks, c) == seq![
                text::id_num(laws::block_id(blocks[0]), number as int),
            ] + laws::block_names(
                g,
                blocks.drop_first(),
                walk::walk_block(g, blocks[0], c).container,
            )
        }),
{
    let names = laws::block_names(g, blocks, c);
    let first = walk::walk_block(g, blocks[0], c);
    let rest = blocks.drop_first();
    let rest_names = laws::block_names(g, rest, first.container);
    let number = (laws::block_number(g, c, blocks[0])->Ok_0).0;
    let name = text::id_num(laws::block_id(blocks[0]), number as int);
    assert(walk::walk(g, blocks.take(0), Ok(()), c).container == c);
    assert(names[0] == name);
    assert forall|i: int| 1 <= i < names.len() implies #[trigger] names[i] == rest_names[i - 1] by {
        let front = blocks.take(i);
        assert(front[0] == blocks[0]);
        assert(front.drop_first() =~= rest.take(i - 1));
        assert(walk::walk(g, front, Ok(()), c).container == walk::walk(
            g,
            rest.take(i - 1),
            Ok(()),
            first.container,
        ).container);
        assert(blocks[i] == rest[i - 1]);
    }
    assert(names =~= seq![name] + rest_names);
}

/// No name of a block has a line break if no kind has.
proof fn lemma_names_are_unbroken(
    g: Game,
    blocks: Seq<Block>,
    end: Result<(), Stop>,
    c: ContainerView,
)
    requires
        walk::walk(g, blocks, end, c).end is Ok,
        all_named(blocks),
        all_unbroken(blocks),
    ensures
        forall|i: int|
            0 <= i < blocks.len() ==> !(#[trigger] laws::block_names(g, blocks, c)[i]).contains(
                '\n',
            ),
    decreases blocks.len(),
{
    if blocks.len() > 0 {
        let first = walk::walk_block(g, blocks[0], c);
        let rest = blocks.drop_first();
        lemma_first_name(g, blocks, c);
        lemma_names_are_unbroken(g, rest, end, first.container);
        let number = (laws::block_number(g, c, blocks[0])->Ok_0).0;
        assert(named(blocks[0]) && unbroken(blocks[0]));
        lemma_block_name(laws::block_id(blocks[0]), number as int);
        let rest_names = laws::block_names(g, rest, first.container);
        assert forall|i: int| 0 <= i < blocks.len() implies !(#[trigger] laws::block_names(
            g,
            blocks,
            c,
        )[i]).contains('\n') by {
            if i > 0 {
                assert(laws::block_names(g, blocks, c)[i] == rest_names[i - 1]);
            }
        }
    }
}

/// The list that stands in a directory gives the names of the blocks.
proof fn lemma_list_reads_back(
    g: Game,
    blocks: Seq<Block>,
    end: Result<(), Stop>,
    c: ContainerView,
    files: Map<Seq<char>, Seq<u8>>,
)
    requires
        walk::walk(g, blocks, end, c).end is Ok,
        all_named(blocks),
        all_unbroken(blocks),
        c.map.len() == 0,
        files[c.path + "/.map"@] == encode_utf8(walk::walk(g, blocks, end, c).container.map),
    ensures
        listed_names(files, c.path) == laws::block_names(g, blocks, c),
{
    let names = laws::block_names(g, blocks, c);
    laws::law_every_block_has_its_line(g, blocks, end, c);
    assert(c.map + laws::lines(names) =~= laws::lines(names));
    encode_utf8_decode_utf8(laws::lines(names));
    lemma_names_are_unbroken(g, blocks, end, c);
    lemma_lines_read_back(names);
}

/// The files of blocks give back the bytes of the blocks.
proof fn lemma_blocks_are_rebuilt(
    g: Game,
    blocks: Seq<Block>,
    end: Result<(), Stop>,
    c: ContainerView,
    files: Map<Seq<char>, Seq<u8>>,
    depth: nat,
)
    requires
        walk::walk(g, blocks, end, c).end is Ok,
        laws::all_plain(blocks),
        all_named(blocks),
        all_unbroken(blocks),
        stands(files, walk::walk(g, blocks, end, c).outs),
        told_apart(files),
        depth >= layout::encoded_all(blocks).len(),
    ensures
        rebuilt_blocks(files, c.path, laws::block_names(g, blocks, c), depth)
            == layout::encoded_all(blocks),
    decreases blocks,
{
    let names = laws::block_names(g, blocks, c);
    if blocks.len() > 0 {
        let block = blocks[0];
        let rest = blocks.drop_first();
        let first = walk::walk_block(g, block, c);
        let tail = walk::walk(g, rest, end, first.container);
        let outs = walk::walk(g, blocks, end, c).outs;
        assert forall|i: int| 0 <= i < first.outs.len() implies output_stands(
            files,
            #[trigger] first.outs[i],
        ) by {
            assert(outs[i] == first.outs[i]);
        }
        assert forall|i: int| 0 <= i < tail.outs.len() implies output_stands(
            files,
            #[trigger] tail.outs[i],
        ) by {
            assert(outs[first.outs.len() + i] == tail.outs[i]);
        }
        laws::law_block_leaves_the_path(g, block, c);
        lemma_blocks_are_rebuilt(g, rest, end, first.container, files, depth);
        lemma_first_name(g, blocks, c);
        assert(names.drop_first() =~= laws::block_names(g, rest, first.container));
        let number = (laws::block_number(g, c, block)->Ok_0).0;
        let id = laws::block_id(block);
        assert(named(block) && unbroken(block));
        lemma_block_name(id, number as int);
        lemma_block_is_rebuilt(g, block, c, files, depth);
    }
}

/// The content of the block whose file or directory is called `own`.
pub open spec fn rebuilt_content(
    files: Map<Seq<char>, Seq<u8>>,
    own: Seq<char>,
    depth: nat,
) -> Seq<u8> {
    if files.contains_key(own + ".bin"@) {
        files[own + ".bin"@]
    } else if depth > 0 {
        rebuilt(files, own, (depth - 1) as nat)
    } else {
        Seq::empty()
    }
}

/// The files of a block give back its content.
proof fn lemma_block_is_rebuilt(
    g: Game,
    block: Block,
    c: ContainerView,
    files: Map<Seq<char>, Seq<u8>>,
    depth: nat,
)
    requires
        walk::walk_block(g, block, c).end is Ok,
        laws::plain(block),
        named(block),
        unbroken(block),
        stands(files, walk::walk_block(g, block, c).outs),
        told_apart(files),
        depth >= layout::encoded(block).len(),
    ensures
        ({
            let number = (laws::block_number(g, c, block)->Ok_0).0;
            let id = laws::block_id(block);
            let own = c.path + "/"@ + text::id_num(id, number as int);
            layout::framed(id, rebuilt_content(files, own, depth)) == layout::encoded(block)
        }),
    decreases block,
{
    let run = walk::walk_block(g, block, c);
    let number = (laws::block_number(g, c, block)->Ok_0).0;
    let name = text::id_num(laws::block_id(block), number as int);
    let own = c.path + "/"@ + name;
    match block {
        Block::Flat { id, offset, content } => {
            laws::law_blocks_are_listed(g, block, c);
            assert(output_stands(files, run.outs[0]));
        },
        Block::Nested { id, offset, blocks, end } => {
            let (_, c1) = walk::number_nested(g, c, id, offset)->Ok_0;
            let inside = walk::opened(walk::listed(c1, name), name);
            let inner = walk::walk(g, blocks, end, inside);
            assert(inside.path == own);
            laws::law_paths_come_back(g, blocks, end, inside);
            assert(run.outs == inner.outs.push(walk::listing(inner.container)));
            assert(run.outs.last() == walk::listing(inner.container));
            assert(output_stands(files, run.outs[run.outs.len() - 1]));
            assert(files.contains_key(own + "/.map"@));
            assert forall|i: int| 0 <= i < inner.outs.len() implies output_stands(
                files,
                #[trigger] inner.outs[i],
            ) by {
                assert(run.outs[i] == inner.outs[i]);
            }
            lemma_list_reads_back(g, blocks, end, inside, files);
            let content = layout::encoded_all(blocks);
            assert(layout::encoded(block).len() >= content.len() + 1);
            lemma_blocks_are_rebuilt(g, blocks, end, inside, files, (depth - 1) as nat);
        },
    }
}

/// When a disk is unpacked to a good end, it can be put together again from the files: the lists,
/// followed from the outermost one, give the names of the blocks in order, and each name leads to
/// the content of its block.
///
/// This takes that every block and every list still stands at its path, that no name is both that of
/// a block with raw content and that of a directory, that no container has a slash in its name and
/// that no block has a line break in its name.
pub proof fn law_disk_is_rebuilt(
    g: Game,
    file: Seq<u8>,
    files: Map<Seq<char>, Seq<u8>>,
    depth: nat,
)
    requires
        walk::extraction(g, file).1 is Ok,
        stands(files, walk::extraction(g, file).0),
        told_apart(files),
        ({
            let d = bytes::masked(file, bytes::NICE);
            let blocks = layout::forest(d, 0, d.len() as int).blocks;
            laws::all_plain(blocks) && all_unbroken(blocks)
        }),
        depth >= file.len(),
    ensures
        rebuilt(files, "."@, depth) == bytes::masked(file, bytes::NICE),
{
    let d = bytes::masked(file, bytes::NICE);
    let f = layout::forest(d, 0, d.len() as int);
    let c = walk::root();
    let run = walk::walk_file(g, file);
    let outs = walk::extraction(g, file).0;
    assert(outs == run.outs.push(walk::listing(run.container)));
    assert forall|i: int| 0 <= i < run.outs.len() implies output_stands(
        files,
        #[trigger] run.outs[i],
    ) by {
        assert(outs[i] == run.outs[i]);
    }
    assert(output_stands(files, outs[outs.len() - 1]));
    laws::law_paths_come_back(g, f.blocks, f.end, c);
    law_all_names_have_four_bytes(d, 0, d.len() as int);
    walk::lemma_walk_ends(g, f.blocks, f.end, c);
    layout::law_blocks_cover_the_data(d, 0, d.len() as int);
    assert(d.subrange(0, d.len() as int) =~= d);
    lemma_list_reads_back(g, f.blocks, f.end, c, files);
    lemma_blocks_are_rebuilt(g, f.blocks, f.end, c, files, depth);
}

/// What stands at each path once the files were written, in order. A later file takes the place of
/// an earlier one at the same path.
pub open spec fn on_disk(files: Seq<FileView>) -> Map<Seq<char>, Seq<u8>>
    decreases files.len(),
{
    if files.len() == 0 {
        Map::empty()
    } else {
        on_disk(files.drop_last()).insert(files.last().path, files.last().data)
    }
}

/// Whether no two files have the same path.
pub open spec fn own_paths(files: Seq<FileView>) -> bool {
    forall|i: int, j: int|
        0 <= i < j < files.len() ==> (#[trigger] files[i]).path != (#[trigger] files[j]).path
}

/// Files with paths of their own all stand at their paths once they were written.
pub proof fn law_files_stand(files: Seq<FileView>, i: int)
    requires
        own_paths(files),
        0 <= i < files.len(),
    ensures
        on_disk(files).contains_key(files[i].path),
        on_disk(files)[files[i].path] == files[i].data,
    decreases files.len(),
{
    if i < files.len() - 1 {
        let front = files.drop_last();
        assert forall|k: int, j: int| 0 <= k < j < front.len() implies (#[trigger] front[k]).path != (
        #[trigger] front[j]).path by {
            assert(front[k] == files[k] && front[j] == files[j]);
        }
        law_files_stand(front, i);
        assert(front[i] == files[i]);
        assert(files[i].path != files[files.len() - 1].path);
    }
}

/// The file of a block or of a list is among those that are planned.
proof fn lemma_file_is_planned(
    outs: Seq<OutputView>,
    texts: spec_fn(ScriptView) -> Texts,
    i: int,
) -> (at: int)
    requires
        0 <= i < outs.len(),
        !(outs[i] is Script),
    ensures
        0 <= at < writing::planned(outs, texts).len(),
        seq![writing::planned(outs, texts)[at]] == writing::output_files(outs[i], texts),
    decreases outs.len(),
{
    let own = writing::output_files(outs[0], texts);
    let all = writing::planned(outs, texts);
    if i == 0 {
        assert(own.len() == 1 && all[0] == own[0]);
        assert(seq![all[0]] =~= own);
        0
    } else {
        let rest = writing::planned(outs.drop_first(), texts);
        let at = lemma_file_is_planned(outs.drop_first(), texts, i - 1);
        assert(outs.drop_first()[i - 1] == outs[i]);
        assert(all[own.len() + at] == rest[at]);
        own.len() + at
    }
}

/// When a disk is unpacked to a good end and all files are written, no two of them at the same path,
/// the disk can be put together again from what then stands on disk.
pub proof fn law_written_files_rebuild_the_disk(
    g: Game,
    file: Seq<u8>,
    texts: spec_fn(ScriptView) -> Texts,
    depth: nat,
)
    requires
        walk::extraction(g, file).1 is Ok,
        own_paths(writing::planned(walk::extraction(g, file).0, texts)),
        told_apart(on_disk(writing::planned(walk::extraction(g, file).0, texts))),
        ({
            let d = bytes::masked(file, bytes::NICE);
            let blocks = layout::forest(d, 0, d.len() as int).blocks;
            laws::all_plain(blocks) && all_unbroken(blocks)
        }),
        depth >= file.len(),
    ensures
        rebuilt(on_disk(writing::planned(walk::extraction(g, file).0, texts)), "."@, depth)
            == bytes::masked(file, bytes::NICE),
{
    let outs = walk::extraction(g, file).0;
    let written = writing::planned(outs, texts);
    let files = on_disk(written);
    assert forall|i: int| 0 <= i < outs.len() implies output_stands(files, #[trigger] outs[i]) by {
        if !(outs[i] is Script) {
            let at = lemma_file_is_planned(outs, texts, i);
            law_files_stand(written, at);
            assert(seq![written[at]][0] == written[at]);
        }
    }
    law_disk_is_rebuilt(g, file, files, depth);
}

} // verus!
