//! The text of the summary: what was compared, what each side held, and what
//! changed between them.

use vstd::prelude::*;
use crate::changes::Changes;
use crate::error::{failure, Error};
use crate::format::{is_sound_side, Loaded};
use crate::schematic::{built, extent, region_count, region_total, tight_dimensions};
use crate::single::{hundredths, in_hundredths};
use crate::stat::{block_total, count_blocks, texts};
use crate::text::{
    decimal, is_digit, lemma_number_goes_before, lemma_prefix_goes_on, occurs, push_decimal,
    push_signed, signed_decimal, tells_number,
};

verus! {

/// Only one file is looked at, rather than a change.
pub open spec fn is_inspection(standalone: bool, before: bool, after: bool) -> bool {
    standalone && (!before || !after)
}

/// What happened to a path.
pub open spec fn status(before: bool, after: bool) -> Seq<char> {
    if !before && after {
        "added"@
    } else if before && !after {
        "deleted"@
    } else {
        "modified"@
    }
}

/// The line naming the path and what happened to it.
pub fn heading(display: &str, standalone: bool, before: bool, after: bool) -> (r: String)
    ensures
        r@ == (if is_inspection(standalone, before, after) {
            display@
        } else {
            display@ + "  ["@ + status(before, after) + "]"@
        }),
{
    let mut text = display.to_owned();
    if standalone && (!before || !after) {
        return text;
    }
    text.append("  [");
    if !before && after {
        text.append("added");
    } else if before && !after {
        text.append("deleted");
    } else {
        text.append("modified");
    }
    text.append("]");
    text
}

/// How many lines the summary prints: the heading, one line per side that loaded,
/// the change tally, and the pack line when one was given.
pub open spec fn line_total(
    standalone: bool,
    before: bool,
    after: bool,
    pack: bool,
    stat: nat,
) -> nat {
    let sides = if is_inspection(standalone, before, after) {
        2nat
    } else {
        2 + (if before {
            1nat
        } else {
            0
        }) + (if after {
            1nat
        } else {
            0
        })
    };
    sides + (if pack {
        1nat
    } else {
        0
    }) + stat
}

/// How many lines the summary prints.
pub fn summary_lines(
    before: bool,
    after: bool,
    pack: bool,
    stat_lines: u32,
    standalone: bool,
) -> (r: u32)
    requires
        stat_lines <= u32::MAX - 5,
    ensures
        r == line_total(standalone, before, after, pack, stat_lines as nat),
{
    let mut lines: u32 = 2;
    if !(standalone && (!before || !after)) {
        if before {
            lines = lines + 1;
        }
        if after {
            lines = lines + 1;
        }
    }
    if pack {
        lines = lines + 1;
    }
    lines + stat_lines
}

/// How a number of entities is told.
pub open spec fn entities_text(count: nat) -> Seq<char> {
    if count == 0 {
        Seq::empty()
    } else if count == 1 {
        "  1 entity"@
    } else {
        "  "@ + decimal(count) + " entities"@
    }
}

/// One side's size, block count and provenance.
pub open spec fn description(loaded: Loaded) -> Seq<char> {
    let size = extent(loaded.schematic);
    signed_decimal(size.0) + "x"@ + signed_decimal(size.1) + "x"@ + signed_decimal(size.2) + "  "@
        + decimal(block_total(built(loaded.schematic))) + " blocks  "@ + decimal(
        region_total(loaded.schematic),
    ) + " region"@ + (if region_total(loaded.schematic) == 1 {
        Seq::empty()
    } else {
        "s"@
    }) + entities_text(loaded.entities as nat) + "  ["@ + loaded.format@ + "]"@
}

/// One side's size, block count and provenance, for the summary.
pub fn describe(loaded: &Loaded) -> (r: String)
    requires
        loaded.wf(),
    ensures
        r@ == description(*loaded),
{
    let (x, y, z) = tight_dimensions(&loaded.schematic);
    let regions: usize = region_count(&loaded.schematic);
    let blocks: usize = count_blocks(&loaded.schematic);
    let mut text = String::new();
    push_signed(&mut text, x as i64);
    text.append("x");
    push_signed(&mut text, y as i64);
    text.append("x");
    push_signed(&mut text, z as i64);
    text.append("  ");
    push_decimal(&mut text, blocks as u64);
    text.append(" blocks  ");
    push_decimal(&mut text, regions as u64);
    text.append(" region");
    if regions != 1 {
        text.append("s");
    }
    if loaded.entities == 1 {
        text.append("  1 entity");
    } else if loaded.entities > 1 {
        text.append("  ");
        push_decimal(&mut text, loaded.entities as u64);
        text.append(" entities");
    }
    text.append("  [");
    text.append(loaded.format.as_str());
    text.append("]");
    assert(text@ =~= description(*loaded));
    text
}

/// What a resource pack holds.
pub struct PackStats {
    pub blockstates: usize,
    pub models: usize,
    pub textures: usize,
}

/// The line on the resource pack.
pub open spec fn pack_text(stats: PackStats, path: Seq<char>) -> Seq<char> {
    "  pack    "@ + decimal(stats.blockstates as nat) + " blockstates, "@ + decimal(
        stats.models as nat,
    ) + " models, "@ + decimal(stats.textures as nat) + " textures  ["@ + path + "]"@
}

/// The line on what changed.
pub open spec fn changes_text(changes: Option<Changes>) -> Seq<char> {
    match changes {
        Some(changes) => "  changes +"@ + decimal(changes.added@.len()) + " added, -"@ + decimal(
            changes.removed@.len(),
        ) + " removed, ~"@ + decimal(changes.changed@.len()) + " changed, "@ + decimal(
            changes.swapped@.len(),
        ) + " re-paletted ("@ + signed_decimal(hundredths(changes.support)) + "% of cells aligned)"@,
        None => "  changes not computed (only one side exists)"@,
    }
}

/// The lines on the two sides, or on the one that is looked at.
pub open spec fn side_lines(
    standalone: bool,
    before: Option<Loaded>,
    after: Option<Loaded>,
    changes: Option<Changes>,
) -> Seq<Seq<char>> {
    if is_inspection(standalone, before is Some, after is Some) {
        seq![
            "  build   "@ + description(
                if after is Some {
                    after->0
                } else {
                    before->0
                },
            ),
        ]
    } else {
        (match before {
            Some(loaded) => seq!["  before  "@ + description(loaded)],
            None => Seq::empty(),
        }) + (match after {
            Some(loaded) => seq!["  after   "@ + description(loaded)],
            None => Seq::empty(),
        }) + seq![changes_text(changes)]
    }
}

fn change_line(changes: Option<&Changes>) -> (r: String)
    ensures
        r@ == changes_text(
            match changes {
                Some(changes) => Some(*changes),
                None => None,
            },
        ),
{
    match changes {
        Some(changes) => {
            let mut text = "  changes +".to_owned();
            push_decimal(&mut text, changes.added.len() as u64);
            text.append(" added, -");
            push_decimal(&mut text, changes.removed.len() as u64);
            text.append(" removed, ~");
            push_decimal(&mut text, changes.changed.len() as u64);
            text.append(" changed, ");
            push_decimal(&mut text, changes.swapped.len() as u64);
            text.append(" re-paletted (");
            push_signed(&mut text, in_hundredths(changes.support) as i64);
            text.append("% of cells aligned)");
            text
        },
        None => "  changes not computed (only one side exists)".to_owned(),
    }
}

fn pack_line(stats: &PackStats, path: &str) -> (r: String)
    ensures
        r@ == pack_text(*stats, path@),
{
    let mut text = "  pack    ".to_owned();
    push_decimal(&mut text, stats.blockstates as u64);
    text.append(" blockstates, ");
    push_decimal(&mut text, stats.models as u64);
    text.append(" models, ");
    push_decimal(&mut text, stats.textures as u64);
    text.append(" textures  [");
    text.append(path);
    text.append("]");
    text
}

/// Append one line.
fn push_line(lines: &mut Vec<String>, line: String)
    ensures
        texts(final(lines)@) == texts(old(lines)@).push(line@),
{
    lines.push(line);
    assert(texts(lines@) =~= texts(old(lines)@).push(line@));
}

fn described_line(title: &str, loaded: &Loaded) -> (r: String)
    requires
        loaded.wf(),
    ensures
        r@ == title@ + description(*loaded),
{
    let mut text = title.to_owned();
    let described = describe(loaded);
    text.append(described.as_str());
    text
}

/// What each side held, what changed between them, and what the pack contained.
pub fn details(
    standalone: bool,
    before: &Option<Loaded>,
    after: &Option<Loaded>,
    changes: Option<&Changes>,
    pack: Option<(&PackStats, &str)>,
    stat: &Vec<String>,
) -> (r: Vec<String>)
    requires
        is_sound_side(*before),
        is_sound_side(*after),
        standalone ==> *before is Some || *after is Some,
    ensures
        texts(r@) == side_lines(
            standalone,
            *before,
            *after,
            match changes {
                Some(changes) => Some(*changes),
                None => None,
            },
        ) + (match pack {
            Some((stats, path)) => seq![pack_text(*stats, path@)],
            None => Seq::empty(),
        }) + texts(stat@),
{
    let mut lines: Vec<String> = Vec::new();
    assert(texts(lines@) =~= Seq::empty());
    let ghost told: Option<Changes> = match changes {
        Some(changes) => Some(*changes),
        None => None,
    };
    if standalone && (before.is_none() || after.is_none()) {
        let line = match (before, after) {
            (_, Some(loaded)) => described_line("  build   ", loaded),
            (Some(loaded), None) => described_line("  build   ", loaded),
            (None, None) => String::new(),
        };
        push_line(&mut lines, line);
    } else {
        match before {
            Some(loaded) => {
                push_line(&mut lines, described_line("  before  ", loaded));
            },
            None => {},
        }
        match after {
            Some(loaded) => {
                push_line(&mut lines, described_line("  after   ", loaded));
            },
            None => {},
        }
        push_line(&mut lines, change_line(changes));
    }
    assert(texts(lines@) =~= side_lines(standalone, *before, *after, told));
    match pack {
        Some((stats, path)) => {
            push_line(&mut lines, pack_line(stats, path));
        },
        None => {},
    }
    let ghost head = texts(lines@);
    assert(head =~= side_lines(standalone, *before, *after, told) + (match pack {
        Some((stats, path)) => seq![pack_text(*stats, path@)],
        None => Seq::empty(),
    }));
    let mut i: usize = 0;
    assert(head + texts(stat@).take(0) =~= head);
    while i < stat.len()
        invariant
            i <= stat.len(),
            texts(lines@) == head + texts(stat@).take(i as int),
        decreases stat.len() - i,
    {
        push_line(&mut lines, stat[i].as_str().to_owned());
        assert(texts(lines@) =~= head + texts(stat@).take(i + 1));
        i = i + 1;
    }
    assert(texts(stat@).take(i as int) =~= texts(stat@));
    lines
}

/// The line on what changed tells the length of each of the four lists before the word
/// for it, and the share of the cells that found a counterpart in hundredths.
#[verifier::rlimit(60)]
pub proof fn lemma_change_line_tells_the_counts(
    standalone: bool,
    before: &Option<Loaded>,
    after: &Option<Loaded>,
    changes: Option<&Changes>,
    pack: Option<(&PackStats, &str)>,
    stat: &Vec<String>,
    r: Vec<String>,
)
    requires
        call_ensures(details, (standalone, before, after, changes, pack, stat), r),
        before is Some,
        after is Some,
        changes is Some,
    ensures
        r@.len() >= 3,
        tells_number(r@[2]@, changes->0.added@.len(), " added"@),
        tells_number(r@[2]@, changes->0.removed@.len(), " removed"@),
        tells_number(r@[2]@, changes->0.changed@.len(), " changed"@),
        tells_number(r@[2]@, changes->0.swapped@.len(), " re-paletted"@),
        hundredths(changes->0.support) >= 0 ==> tells_number(
            r@[2]@,
            hundredths(changes->0.support) as nat,
            "% of cells aligned"@,
        ),
{
    let lines = texts(r@);
    assert(side_lines(standalone, *before, *after, Some(*changes->0)).len() == 3);
    assert(lines.len() >= 3);
    assert(lines[2] == r@[2]@);
    assert(lines[2] == changes_text(Some(*changes->0)));
    lemma_counts_are_told(*changes->0);
}

#[verifier::rlimit(60)]
proof fn lemma_counts_are_told(changes: Changes)
    ensures
        ({
            let text = changes_text(Some(changes));
            &&& tells_number(text, changes.added@.len(), " added"@)
            &&& tells_number(text, changes.removed@.len(), " removed"@)
            &&& tells_number(text, changes.changed@.len(), " changed"@)
            &&& tells_number(text, changes.swapped@.len(), " re-paletted"@)
            &&& hundredths(changes.support) >= 0 ==> tells_number(
                text,
                hundredths(changes.support) as nat,
                "% of cells aligned"@,
            )
        }),
{
    let text = changes_text(Some(changes));
    let share = signed_decimal(hundredths(changes.support)) + "% of cells aligned)"@;
    let (p, q) = (decimal(changes.added@.len()), decimal(changes.removed@.len()));
    let (m, n) = (decimal(changes.changed@.len()), decimal(changes.swapped@.len()));
    let a = "  changes +"@;
    let b = a + p + " added, -"@;
    let c = b + q + " removed, ~"@;
    let d = c + m + " changed, "@;
    let t4 = " re-paletted ("@ + share;
    let t3 = " changed, "@ + (n + t4);
    let t2 = " removed, ~"@ + (m + t3);
    let t1 = " added, -"@ + (q + t2);
    assert(!is_digit(a.last())) by {
        reveal_strlit("  changes +");
    }
    assert(!is_digit(b.last())) by {
        reveal_strlit(" added, -");
        assert(b.last() == " added, -"@.last());
    }
    assert(!is_digit(c.last())) by {
        reveal_strlit(" removed, ~");
        assert(c.last() == " removed, ~"@.last());
    }
    assert(!is_digit(d.last())) by {
        reveal_strlit(" changed, ");
        assert(d.last() == " changed, "@.last());
    }
    assert(" added"@.is_prefix_of(" added, -"@)) by {
        reveal_strlit(" added");
        reveal_strlit(" added, -");
    }
    assert(" removed"@.is_prefix_of(" removed, ~"@)) by {
        reveal_strlit(" removed");
        reveal_strlit(" removed, ~");
    }
    assert(" changed"@.is_prefix_of(" changed, "@)) by {
        reveal_strlit(" changed");
        reveal_strlit(" changed, ");
    }
    assert(" re-paletted"@.is_prefix_of(" re-paletted ("@)) by {
        reveal_strlit(" re-paletted");
        reveal_strlit(" re-paletted (");
    }
    lemma_prefix_goes_on(" added"@, " added, -"@, q + t2);
    lemma_prefix_goes_on(" removed"@, " removed, ~"@, m + t3);
    lemma_prefix_goes_on(" changed"@, " changed, "@, n + t4);
    lemma_prefix_goes_on(" re-paletted"@, " re-paletted ("@, share);
    lemma_number_goes_before(a, changes.added@.len(), t1, " added"@);
    lemma_number_goes_before(b, changes.removed@.len(), t2, " removed"@);
    lemma_number_goes_before(c, changes.changed@.len(), t3, " changed"@);
    lemma_number_goes_before(d, changes.swapped@.len(), t4, " re-paletted"@);
    assert(text =~= d + n + t4);
    let e = d + n + " re-paletted ("@;
    assert(!is_digit(e.last())) by {
        reveal_strlit(" re-paletted (");
        assert(e.last() == " re-paletted ("@.last());
    }
    assert("% of cells aligned"@.is_prefix_of("% of cells aligned)"@)) by {
        reveal_strlit("% of cells aligned");
        reveal_strlit("% of cells aligned)");
    }
    if hundredths(changes.support) >= 0 {
        let whole = hundredths(changes.support) as nat;
        lemma_number_goes_before(e, whole, "% of cells aligned)"@, "% of cells aligned"@);
        assert(e + decimal(whole) + "% of cells aligned)"@ =~= d + n + t4);
    }
    assert(c + m + t3 =~= d + n + t4);
    assert(b + q + t2 =~= c + m + t3);
    assert(a + p + t1 =~= b + q + t2);
}

/// It does not matter in which order three texts are joined.
proof fn lemma_joins_alike(a: Seq<char>, b: Seq<char>, c: Seq<char>)
    ensures
        a + b + c == a + (b + c),
{
    assert(a + b + c =~= a + (b + c));
}

/// A text is a start of itself.
proof fn lemma_starts_with_itself(word: Seq<char>)
    ensures
        word.is_prefix_of(word),
{
    assert(word.subrange(0, word.len() as int) =~= word);
}

/// A text in front is a start of the whole.
proof fn lemma_front_is_a_start(front: Seq<char>, rest: Seq<char>)
    ensures
        front.is_prefix_of(front + rest),
{
    assert((front + rest).subrange(0, front.len() as int) =~= front);
}

/// A text behind is an end of the whole.
proof fn lemma_rest_is_an_end(front: Seq<char>, rest: Seq<char>)
    ensures
        rest.is_suffix_of(front + rest),
{
    let whole = front + rest;
    assert(whole.subrange(whole.len() - rest.len(), whole.len() as int) =~= rest);
}

/// The numbers of blocks and regions, in a line that has them in their places.
#[verifier::rlimit(60)]
proof fn lemma_blocks_and_regions(size: Seq<char>, blocks: nat, regions: nat, rest: Seq<char>)
    ensures
        ({
            let text = size + "  "@ + decimal(blocks) + " blocks  "@ + decimal(regions)
                + " region"@ + rest;
            &&& tells_number(text, blocks, " blocks"@)
            &&& tells_number(text, regions, " region"@)
        }),
{
    let a = size + "  "@;
    let b = a + decimal(blocks) + " blocks  "@;
    let t2 = " region"@ + rest;
    let t1 = " blocks  "@ + (decimal(regions) + t2);
    assert(!is_digit(a.last())) by {
        reveal_strlit("  ");
        assert(a.last() == "  "@.last());
    }
    assert(!is_digit(b.last())) by {
        reveal_strlit(" blocks  ");
        assert(b.last() == " blocks  "@.last());
    }
    assert(" blocks"@.is_prefix_of(" blocks  "@)) by {
        reveal_strlit(" blocks");
        reveal_strlit(" blocks  ");
    }
    lemma_starts_with_itself(" region"@);
    lemma_prefix_goes_on(" blocks"@, " blocks  "@, decimal(regions) + t2);
    lemma_prefix_goes_on(" region"@, " region"@, rest);
    lemma_number_goes_before(a, blocks, t1, " blocks"@);
    lemma_number_goes_before(b, regions, t2, " region"@);
    let text = b + decimal(regions) + " region"@ + rest;
    assert(text =~= b + decimal(regions) + t2);
    assert(text =~= a + decimal(blocks) + t1);
}

/// The number of entities, in a line that has it in its place.
proof fn lemma_entities_are_told(front: Seq<char>, many: nat, end: Seq<char>)
    ensures
        many > 1 ==> tells_number(front + entities_text(many) + end, many, " entities"@),
        many == 1 ==> tells_number(front + entities_text(many) + end, many, " entity"@),
{
    let h = front + "  "@;
    assert(!is_digit(h.last())) by {
        reveal_strlit("  ");
        assert(h.last() == "  "@.last());
    }
    if many > 1 {
        lemma_starts_with_itself(" entities"@);
        lemma_prefix_goes_on(" entities"@, " entities"@, end);
        lemma_number_goes_before(h, many, " entities"@ + end, " entities"@);
        assert(h + decimal(many) + (" entities"@ + end) =~= front + entities_text(many) + end);
    } else if many == 1 {
        assert("  1 entity"@ =~= "  "@ + decimal(1) + " entity"@) by {
            reveal_strlit("  1 entity");
            reveal_strlit(" entity");
            reveal_strlit("  ");
            assert(decimal(1) =~= seq!['1']);
        }
        lemma_starts_with_itself(" entity"@);
        lemma_prefix_goes_on(" entity"@, " entity"@, end);
        lemma_number_goes_before(h, 1, " entity"@ + end, " entity"@);
        assert(h + decimal(1) + (" entity"@ + end) =~= front + entities_text(many) + end);
    }
}

/// The line on a side tells its blocks, its regions and its entities in numbers before
/// the words for them, starts with its size along the three axes in their order, and ends
/// with its format.
#[verifier::rlimit(60)]
pub proof fn lemma_description_tells_the_build(loaded: &Loaded, r: String)
    requires
        call_ensures(describe, (loaded,), r),
    ensures
        ({
            let (x, y, z) = extent(loaded.schematic);
            (signed_decimal(x) + seq!['x'] + signed_decimal(y) + seq!['x'] + signed_decimal(z)
                + seq![' ']).is_prefix_of(r@)
        }),
        tells_number(r@, block_total(built(loaded.schematic)), " blocks"@),
        tells_number(r@, region_total(loaded.schematic), " region"@),
        loaded.entities > 1 ==> tells_number(r@, loaded.entities as nat, " entities"@),
        loaded.entities == 1 ==> tells_number(r@, 1, " entity"@),
        (seq!['['] + loaded.format@ + seq![']']).is_suffix_of(r@),
{
    let (x, y, z) = extent(loaded.schematic);
    let text = r@;
    let blocks = block_total(built(loaded.schematic));
    let regions = region_total(loaded.schematic);
    let many = loaded.entities as nat;
    let size = signed_decimal(x) + "x"@ + signed_decimal(y) + "x"@ + signed_decimal(z);
    let counts = size + "  "@ + decimal(blocks) + " blocks  "@ + decimal(regions) + " region"@;
    let plural: Seq<char> = if regions == 1 {
        Seq::empty()
    } else {
        "s"@
    };
    let folk = entities_text(many);
    let end = "  ["@ + loaded.format@ + "]"@;
    let front = size + seq![' '];
    let rest = plural + folk + end;
    let back = seq![' '] + decimal(blocks) + " blocks  "@ + decimal(regions) + " region"@ + rest;
    let head = counts + plural + folk + seq![' ', ' '];
    let close = seq!['['] + loaded.format@ + seq![']'];
    assert("x"@ =~= seq!['x'] && "  "@ =~= seq![' '] + seq![' ']) by {
        reveal_strlit("x");
        reveal_strlit("  ");
    }
    assert("  ["@ =~= seq![' ', ' '] + seq!['['] && "]"@ =~= seq![']']) by {
        reveal_strlit("  [");
        reveal_strlit("]");
    }
    assert(text == counts + plural + folk + "  ["@ + loaded.format@ + "]"@);
    let t = counts + plural + folk;
    lemma_joins_alike(t, "  ["@, loaded.format@);
    lemma_joins_alike(t, "  ["@ + loaded.format@, "]"@);
    assert(text == t + end);
    lemma_joins_alike(counts, plural, folk);
    lemma_joins_alike(counts, plural + folk, end);
    assert(text == counts + rest);
    lemma_blocks_and_regions(size, blocks, regions, rest);
    lemma_entities_are_told(counts + plural, many, end);
    lemma_joins_alike(size, seq![' '], seq![' ']);
    assert(size + "  "@ == front + seq![' ']);
    lemma_joins_alike(front, seq![' '], decimal(blocks));
    lemma_joins_alike(front, seq![' '] + decimal(blocks), " blocks  "@);
    lemma_joins_alike(front, seq![' '] + decimal(blocks) + " blocks  "@, decimal(regions));
    lemma_joins_alike(
        front,
        seq![' '] + decimal(blocks) + " blocks  "@ + decimal(regions),
        " region"@,
    );
    lemma_joins_alike(
        front,
        seq![' '] + decimal(blocks) + " blocks  "@ + decimal(regions) + " region"@,
        rest,
    );
    assert(text == front + back);
    lemma_front_is_a_start(front, back);
    lemma_joins_alike(t, seq![' ', ' '], seq!['[']);
    lemma_joins_alike(head, seq!['['], loaded.format@);
    lemma_joins_alike(head, seq!['['] + loaded.format@, seq![']']);
    assert(text == head + close);
    lemma_rest_is_an_end(head, close);
}

/// Of two sides the first line is on the one before the change and the second on the one
/// after it, each with that side's own description, and the pack and the breakdown
/// follow.
#[verifier::rlimit(60)]
pub proof fn lemma_sides_are_told_in_order(
    standalone: bool,
    before: &Option<Loaded>,
    after: &Option<Loaded>,
    changes: Option<&Changes>,
    pack: Option<(&PackStats, &str)>,
    stat: &Vec<String>,
    r: Vec<String>,
    first: String,
    second: String,
)
    requires
        call_ensures(details, (standalone, before, after, changes, pack, stat), r),
        before is Some,
        after is Some,
        call_ensures(describe, (&before->0,), first),
        call_ensures(describe, (&after->0,), second),
    ensures
        r@.len() == 3 + stat@.len() + (if pack is Some {
            1int
        } else {
            0
        }),
        r@[0]@ == "  before  "@ + first@,
        r@[1]@ == "  after   "@ + second@,
        forall|i: int|
            0 <= i < stat@.len() ==> (#[trigger] stat@[i])@ == r@[r@.len() - stat@.len() + i]@,
{
    let lines = texts(r@);
    let told: Option<Changes> = match changes {
        Some(changes) => Some(*changes),
        None => None,
    };
    assert(side_lines(standalone, *before, *after, told).len() == 3);
    assert(lines.len() == r@.len());
    assert(lines[0] == r@[0]@ && lines[1] == r@[1]@);
    assert forall|i: int| 0 <= i < stat@.len() implies (#[trigger] stat@[i])@ == r@[r@.len()
        - stat@.len() + i]@ by {
        assert(texts(stat@)[i] == stat@[i]@);
        assert(lines[r@.len() - stat@.len() + i] == r@[r@.len() - stat@.len() + i]@);
    }
}

/// Where git names a file of which one side is missing, the other side is told under its
/// own title, and that no changes were computed. Where a file is looked at, it alone is
/// told.
#[verifier::rlimit(60)]
pub proof fn lemma_one_side_is_told(
    standalone: bool,
    before: &Option<Loaded>,
    after: &Option<Loaded>,
    changes: Option<&Changes>,
    stat: &Vec<String>,
    r: Vec<String>,
    only: String,
)
    requires
        call_ensures(details, (standalone, before, after, changes, None, stat), r),
        before is Some != after is Some,
        before is Some ==> call_ensures(describe, (&before->0,), only),
        after is Some ==> call_ensures(describe, (&after->0,), only),
    ensures
        standalone ==> r@.len() == 1 + stat@.len() && r@[0]@ == "  build   "@ + only@,
        !standalone ==> r@.len() == 2 + stat@.len() && r@[0]@ == (if before is Some {
            "  before  "@
        } else {
            "  after   "@
        }) + only@,
        !standalone && changes is None ==> r@[1]@
            == "  changes not computed (only one side exists)"@,
{
    let lines = texts(r@);
    let told: Option<Changes> = match changes {
        Some(changes) => Some(*changes),
        None => None,
    };
    let sides = side_lines(standalone, *before, *after, told);
    assert(sides.len() == if standalone {
        1int
    } else {
        2
    });
    assert(lines =~= sides + texts(stat@));
    assert(lines[0] == r@[0]@);
    if !standalone {
        assert(lines[1] == r@[1]@);
    }
}

/// The line on the pack tells its three numbers before the words for them, and its path
/// in brackets at the end.
#[verifier::rlimit(60)]
pub proof fn lemma_pack_line_tells_the_pack(
    standalone: bool,
    before: &Option<Loaded>,
    after: &Option<Loaded>,
    changes: Option<&Changes>,
    stats: &PackStats,
    path: &str,
    stat: &Vec<String>,
    r: Vec<String>,
)
    requires
        call_ensures(details, (standalone, before, after, changes, Some((stats, path)), stat), r),
    ensures
        r@.len() > stat@.len(),
        tells_number(r@[r@.len() - stat@.len() - 1]@, stats.blockstates as nat, " blockstates"@),
        tells_number(r@[r@.len() - stat@.len() - 1]@, stats.models as nat, " models"@),
        tells_number(r@[r@.len() - stat@.len() - 1]@, stats.textures as nat, " textures"@),
        (seq!['['] + path@ + seq![']']).is_suffix_of(r@[r@.len() - stat@.len() - 1]@),
{
    let k = r@.len() - stat@.len() - 1;
    let text = pack_text(*stats, path@);
    let told: Option<Changes> = match changes {
        Some(changes) => Some(*changes),
        None => None,
    };
    let sides = side_lines(standalone, *before, *after, told);
    assert(texts(r@) == sides + seq![text] + texts(stat@));
    assert(texts(r@).len() == sides.len() + 1 + stat@.len());
    assert(texts(r@)[k] == r@[k]@);
    assert(r@[k]@ == text);
    let (p, q, n) = (stats.blockstates as nat, stats.models as nat, stats.textures as nat);
    let end = path@ + "]"@;
    let a = "  pack    "@;
    let b = a + decimal(p) + " blockstates, "@;
    let c = b + decimal(q) + " models, "@;
    let t3 = " textures  ["@ + end;
    let t2 = " models, "@ + (decimal(n) + t3);
    let t1 = " blockstates, "@ + (decimal(q) + t2);
    assert(text =~= c + decimal(n) + t3);
    assert(c + decimal(n) + t3 =~= b + decimal(q) + t2);
    assert(b + decimal(q) + t2 =~= a + decimal(p) + t1);
    assert(!is_digit(a.last())) by {
        reveal_strlit("  pack    ");
    }
    assert(!is_digit(b.last())) by {
        reveal_strlit(" blockstates, ");
        assert(b.last() == " blockstates, "@.last());
    }
    assert(!is_digit(c.last())) by {
        reveal_strlit(" models, ");
        assert(c.last() == " models, "@.last());
    }
    assert(" blockstates"@.is_prefix_of(" blockstates, "@)) by {
        reveal_strlit(" blockstates");
        reveal_strlit(" blockstates, ");
    }
    assert(" models"@.is_prefix_of(" models, "@)) by {
        reveal_strlit(" models");
        reveal_strlit(" models, ");
    }
    assert(" textures"@.is_prefix_of(" textures  ["@)) by {
        reveal_strlit(" textures");
        reveal_strlit(" textures  [");
    }
    lemma_prefix_goes_on(" blockstates"@, " blockstates, "@, decimal(q) + t2);
    lemma_prefix_goes_on(" models"@, " models, "@, decimal(n) + t3);
    lemma_prefix_goes_on(" textures"@, " textures  ["@, end);
    lemma_number_goes_before(a, p, t1, " blockstates"@);
    lemma_number_goes_before(b, q, t2, " models"@);
    lemma_number_goes_before(c, n, t3, " textures"@);
    let close = seq!['['] + path@ + seq![']'];
    assert(close.is_suffix_of(text)) by {
        reveal_strlit(" textures  [");
        reveal_strlit("]");
        assert("]"@ =~= seq![']']);
        let front = c + decimal(n) + " textures  "@;
        reveal_strlit(" textures  ");
        assert(" textures  ["@ =~= " textures  "@ + seq!['[']);
        assert(text =~= front + close);
        assert(text.skip(text.len() - close.len()) =~= close);
        assert(text.subrange(text.len() - close.len(), text.len() as int) =~= close);
    }
}

/// The heading says what happened to a path: it was added where only the side after the
/// change is there, deleted where only the one before it is, and modified otherwise. A
/// file that is looked at has nothing happen to it.
pub proof fn lemma_heading_says_what_happened(
    display: &str,
    standalone: bool,
    before: bool,
    after: bool,
    r: String,
)
    requires
        call_ensures(heading, (display, standalone, before, after), r),
    ensures
        standalone && !(before && after) ==> r@ == display@,
        !standalone && after && !before ==> r@ == display@ + "  ["@ + "added"@ + "]"@,
        !standalone && before && !after ==> r@ == display@ + "  ["@ + "deleted"@ + "]"@,
        before && after ==> r@ == display@ + "  ["@ + "modified"@ + "]"@,
{
}

/// An image that is not drawn is explained, one that is drawn is not, and nothing is done
/// with one that was not rendered.
pub proof fn lemma_an_image_is_drawn_or_explained(
    rendered: bool,
    drawable: bool,
    file: bool,
    r: Steps,
)
    requires
        call_ensures(image_steps, (rendered, drawable, file), r),
    ensures
        rendered ==> r.draw != r.explain && r.draw == drawable && r.save == file,
        !rendered ==> !r.save && !r.draw && !r.explain,
{
}

/// The reason why no image was drawn names the file that it was written to, and otherwise
/// the flag that helps: one for a file where there is no terminal, and one for the
/// terminal where there is.
#[verifier::rlimit(60)]
pub proof fn lemma_reason_says_what_to_do(output: Option<&str>, terminal: bool, r: String)
    requires
        call_ensures(no_image_reason, (output, terminal), r),
    ensures
        output matches Some(path) ==> path@.is_suffix_of(r@),
        output is None && !terminal ==> occurs("--output="@, r@),
        output is None && terminal ==> occurs("--kitty"@, r@),
{
    match output {
        Some(path) => {
            assert(r@.skip(r@.len() - path@.len()) =~= path@);
            assert(r@.subrange(r@.len() - path@.len(), r@.len() as int) =~= path@);
        },
        None => {
            reveal_strlit("--output=");
            reveal_strlit("--kitty");
            reveal_strlit(
                "no terminal to draw in; pass --output=<file> to save the image, or run this under kitty, Ghostty or Konsole",
            );
            reveal_strlit(
                "the terminal was not recognised as speaking the kitty graphics protocol; pass --kitty to draw anyway",
            );
            if !terminal {
                assert(r@.subrange(29, 29 + "--output="@.len() as int) =~= "--output="@);
            } else {
                assert(r@.subrange(78, 78 + "--kitty"@.len() as int) =~= "--kitty"@);
            }
        },
    }
}

/// The summary has as many lines below its heading as were reckoned with.
pub proof fn lemma_lines_are_reckoned(
    standalone: bool,
    before: Option<Loaded>,
    after: Option<Loaded>,
    changes: Option<Changes>,
    pack: bool,
    stat: nat,
)
    ensures
        1 + side_lines(standalone, before, after, changes).len() + (if pack {
            1int
        } else {
            0
        }) + stat == line_total(standalone, before is Some, after is Some, pack, stat),
{
}

/// What is done with an image.
#[derive(Clone, Copy, Debug)]
pub struct Steps {
    /// It is written to the file that was asked for.
    pub save: bool,
    /// It is drawn in the terminal.
    pub draw: bool,
    /// The user is told why it is not drawn.
    pub explain: bool,
}

/// What is done with an image, by whether one was rendered, whether it can be drawn
/// and whether a file was asked for. An image is drawn, or else its absence is
/// explained.
pub fn image_steps(rendered: bool, drawable: bool, file: bool) -> (r: Steps)
    ensures
        r.save == (rendered && file),
        r.draw == (rendered && drawable),
        r.explain == (rendered && !drawable),
{
    Steps { save: rendered && file, draw: rendered && drawable, explain: rendered && !drawable }
}

/// Why no image was drawn, phrased as what to do about it.
pub fn no_image_reason(output: Option<&str>, terminal: bool) -> (r: String)
    ensures
        r@ == (match output {
            Some(path) => "no image drawn; it was written to "@ + path@,
            None => if !terminal {
                "no terminal to draw in; pass --output=<file> to save the image, or run this under kitty, Ghostty or Konsole"@
            } else {
                "the terminal was not recognised as speaking the kitty graphics protocol; pass --kitty to draw anyway"@
            },
        }),
{
    match output {
        Some(path) => {
            let mut text = "no image drawn; it was written to ".to_owned();
            text.append(path);
            text
        },
        None => if !terminal {
            "no terminal to draw in; pass --output=<file> to save the image, or run this under kitty, Ghostty or Konsole".to_owned()
        } else {
            "the terminal was not recognised as speaking the kitty graphics protocol; pass --kitty to draw anyway".to_owned()
        },
    }
}

/// A pack with no usable blockstates would silently render every block in the
/// fallback colour, so it is refused.
pub fn check_pack(path: &str, stats: &PackStats) -> (r: Result<(), Error>)
    ensures
        if stats.blockstates == 0 {
            failure(r) == Some(
                path@ + " holds no blockstates, so it is not a resource pack"@,
            )
        } else {
            r is Ok
        },
{
    if stats.blockstates == 0 {
        let mut text = path.to_owned();
        text.append(" holds no blockstates, so it is not a resource pack");
        return Err(Error::message(text));
    }
    Ok(())
}

/// The summary has as many lines as are counted for it: the heading, and the lines below it.
pub proof fn lemma_lines_are_counted(
    standalone: bool,
    before: &Option<Loaded>,
    after: &Option<Loaded>,
    changes: Option<&Changes>,
    pack: Option<(&PackStats, &str)>,
    stat: &Vec<String>,
    r: Vec<String>,
    count: u32,
)
    requires
        call_ensures(details, (standalone, before, after, changes, pack, stat), r),
        stat@.len() <= u32::MAX - 5,
        call_ensures(
            summary_lines,
            (before is Some, after is Some, pack is Some, stat@.len() as u32, standalone),
            count,
        ),
    ensures
        count == r@.len() + 1,
{
    let told: Option<Changes> = match changes {
        Some(changes) => Some(*changes),
        None => None,
    };
    let sides = side_lines(standalone, *before, *after, told);
    let packed: Seq<Seq<char>> = match pack {
        Some((stats, path)) => seq![pack_text(*stats, path@)],
        None => Seq::empty(),
    };
    assert(texts(r@) == sides + packed + texts(stat@));
    assert(texts(r@).len() == r@.len());
    assert(texts(stat@).len() == stat@.len());
    assert(packed.len() == if pack is Some {
        1int
    } else {
        0
    });
    assert(sides.len() == if is_inspection(standalone, before is Some, after is Some) {
        1int
    } else {
        1 + (if before is Some {
            1int
        } else {
            0
        }) + (if after is Some {
            1int
        } else {
            0
        })
    });
}

/// The lines of a breakdown come last, as they are.
pub proof fn lemma_breakdown_comes_last(
    standalone: bool,
    before: &Option<Loaded>,
    after: &Option<Loaded>,
    changes: Option<&Changes>,
    pack: Option<(&PackStats, &str)>,
    stat: &Vec<String>,
    r: Vec<String>,
    i: int,
)
    requires
        call_ensures(details, (standalone, before, after, changes, pack, stat), r),
        0 <= i < stat@.len(),
    ensures
        r@.len() >= stat@.len(),
        r@[r@.len() - stat@.len() + i]@ == stat@[i]@,
{
    let told: Option<Changes> = match changes {
        Some(changes) => Some(*changes),
        None => None,
    };
    let sides = side_lines(standalone, *before, *after, told);
    let packed: Seq<Seq<char>> = match pack {
        Some((stats, path)) => seq![pack_text(*stats, path@)],
        None => Seq::empty(),
    };
    let head = sides + packed;
    assert(texts(r@) == head + texts(stat@));
    assert(texts(r@).len() == r@.len());
    assert(texts(r@)[head.len() + i] == r@[head.len() + i]@);
    assert(texts(stat@)[i] == stat@[i]@);
}

/// A resource pack is taken exactly where it has blockstates, whatever else it has.
pub proof fn lemma_pack_needs_blockstates(path: &str, stats: &PackStats, r: Result<(), Error>)
    requires
        call_ensures(check_pack, (path, stats), r),
    ensures
        r is Ok <==> stats.blockstates > 0,
        r matches Err(error) ==> path@.is_prefix_of(error.text()),
{
    if r is Err {
        lemma_front_is_a_start(path@, " holds no blockstates, so it is not a resource pack"@);
    }
}

} // verus!
