//! The save file's text format, the default fruit pool, the DLC code list
//! and where the save file goes.
use vstd::prelude::*;

use crate::draw::{in_slot, lemma_weight_sum_prefix, weight_sum};
use crate::gacha::{rarity_rank, DlcState, FruitDef, Rarity};
use crate::inventory::{
    listing_map, map_from_pairs, names_ascending, pairs_view, quantity, PlayerInventory,
};
use crate::text::{
    chars_equal, chars_of, decimal, has_prefix, parse_u32, parse_u32_chars, push_chars,
    push_char, push_decimal, split_at_tab, split_at_tab_chars, split_lines, split_lines_chars,
    starts_with_chars, string_from_chars, text_before, trim, trim_chars,
};

verus! {

/// The file that lists the accepted DLC codes, one per line.
pub const DLC_CODE_PATH: &'static str = "DLC/p1fs.txt";

/// How much each accepted DLC code raises the duplicate limit.
pub const DUPLICATE_LIMIT_INCREMENT_PER_DLC_CODE: u32 = 1;

/// The save file's name under the application data directory.
pub const SAVE_FILE_NAME: &'static str = "save.txt";

/// The version that save files are written with and that loading accepts.
pub const SAVE_VERSION: &'static str = "1";

/// Fruit weights are counted in ten-thousandths: a weight of `10_000` is
/// one point of weight.
pub const WEIGHT_UNITS_PER_POINT: u32 = 10_000;

/// What a save file holds: the duplicate limit, and the fruits held with
/// their counts.
#[derive(Clone, Debug, PartialEq, Eq)]
pub struct SaveData {
    pub duplicate_limit: u32,
    pub inventory: Vec<(String, u32)>,
}

impl View for SaveData {
    type V = (u32, Seq<(Seq<char>, u32)>);

    open spec fn view(&self) -> (u32, Seq<(Seq<char>, u32)>) {
        (self.duplicate_limit, pairs_view(self.inventory@))
    }
}

// ---------------------------------------------------------------------------
// Writing
// ---------------------------------------------------------------------------

/// The line that records one fruit, without its line feed.
pub open spec fn fruit_line(name: Seq<char>, qty: u32) -> Seq<char> {
    "fruit="@ + name + "\t"@ + decimal(qty as nat)
}

/// The lines that record the fruits of `inv`, skipping those held zero
/// times, each followed by a line feed.
pub open spec fn fruit_lines_text(inv: Seq<(Seq<char>, u32)>) -> Seq<char>
    decreases inv.len(),
{
    if inv.len() == 0 {
        Seq::empty()
    } else if inv.last().1 == 0 {
        fruit_lines_text(inv.drop_last())
    } else {
        fruit_lines_text(inv.drop_last()) + fruit_line(inv.last().0, inv.last().1) + "\n"@
    }
}

/// The text of a save file: the version line, the duplicate limit line,
/// then one line per fruit held a positive number of times.
pub open spec fn save_text(d: (u32, Seq<(Seq<char>, u32)>)) -> Seq<char> {
    "version="@ + "1"@ + "\n"@ + "duplicate_limit="@ + decimal(d.0 as nat) + "\n"@
        + fruit_lines_text(d.1)
}

/// Writes `save_data` in the save file format.
pub fn serialize_save(save_data: &SaveData) -> (r: String)
    ensures
        r@ == save_text(save_data@),
{
    let mut output = String::new();
    output.append("version=");
    output.append(SAVE_VERSION);
    output.append("\n");
    output.append("duplicate_limit=");
    push_decimal(&mut output, save_data.duplicate_limit as u64);
    output.append("\n");
    let ghost header = output@;
    let ghost inv = pairs_view(save_data.inventory@);
    let mut i: usize = 0;
    while i < save_data.inventory.len()
        invariant
            i <= save_data.inventory@.len(),
            inv == pairs_view(save_data.inventory@),
            output@ == header + fruit_lines_text(inv.take(i as int)),
        decreases save_data.inventory@.len() - i,
    {
        let entry = &save_data.inventory[i];
        assert(inv.take(i + 1).drop_last() =~= inv.take(i as int));
        assert(inv.take(i + 1).last() == (entry.0@, entry.1));
        if entry.1 != 0 {
            let ghost before = output@;
            output.append("fruit=");
            output.append(entry.0.as_str());
            output.append("\t");
            push_decimal(&mut output, entry.1 as u64);
            output.append("\n");
            assert(output@ =~= before + fruit_line(entry.0@, entry.1) + "\n"@);
        }
        i = i + 1;
    }
    assert(inv.take(i as int) =~= inv);
    output
}

// ---------------------------------------------------------------------------
// Reading
// ---------------------------------------------------------------------------

/// What reading has gathered so far: whether a version line was seen, the
/// last duplicate limit read, and the fruits read.
pub type ReadState = (bool, Option<u32>, Seq<(Seq<char>, u32)>);

/// The line number, counted from one, of the line at `index`.
pub open spec fn line_number(index: int) -> Seq<char> {
    decimal((index + 1) as nat)
}

/// Reading one trimmed line of a save file, the `index`-th: the state
/// afterwards, or the message of the error that the line raises.
pub open spec fn read_line(st: ReadState, line: Seq<char>, index: int) -> Result<ReadState, Seq<char>> {
    if line.len() == 0 {
        Ok(st)
    } else if has_prefix(line, "version="@) {
        let version = line.skip("version="@.len() as int);
        if version == "1"@ {
            Ok((true, st.1, st.2))
        } else {
            Err("unsupported save version `"@ + version + "`"@)
        }
    } else if has_prefix(line, "duplicate_limit="@) {
        match parse_u32(line.skip("duplicate_limit="@.len() as int)) {
            Some(n) => Ok((st.0, Some(if n >= 1 { n } else { 1u32 }), st.2)),
            None => Err("invalid duplicate limit on save line "@ + line_number(index)),
        }
    } else if has_prefix(line, "fruit="@) {
        match split_at_tab(line.skip("fruit="@.len() as int)) {
            None => Err("invalid fruit entry on save line "@ + line_number(index)),
            Some(parts) => match parse_u32(parts.1) {
                None => Err("invalid fruit quantity on save line "@ + line_number(index)),
                Some(qty) => Ok(
                    if parts.0.len() > 0 && qty > 0 {
                        (st.0, st.1, st.2.push((parts.0, qty)))
                    } else {
                        st
                    },
                ),
            },
        }
    } else {
        Err("unrecognized save line "@ + line_number(index))
    }
}

/// Reading the first `n` lines of `lines`, each trimmed, stopping at the
/// first error.
pub open spec fn read_lines(lines: Seq<Seq<char>>, n: nat) -> Result<ReadState, Seq<char>>
    decreases n,
{
    if n == 0 {
        Ok((false, None, Seq::empty()))
    } else {
        match read_lines(lines, (n - 1) as nat) {
            Err(e) => Err(e),
            Ok(st) => read_line(st, trim(lines[n - 1]), n - 1),
        }
    }
}

/// What reading a save file's text gives: the save data, or an error
/// message.
pub open spec fn read_save(contents: Seq<char>) -> Result<(u32, Seq<(Seq<char>, u32)>), Seq<char>> {
    let lines = split_lines(contents);
    match read_lines(lines, lines.len()) {
        Err(e) => Err(e),
        Ok(st) => if !st.0 {
            Err("save file is missing version"@)
        } else {
            Ok(
                (
                    match st.1 {
                        Some(n) => n,
                        None => 1u32,
                    },
                    st.2,
                ),
            )
        },
    }
}

/// Once an error is met, reading more lines keeps it.
proof fn lemma_read_lines_error(lines: Seq<Seq<char>>, n: nat, m: nat)
    requires
        n <= m,
        read_lines(lines, n) is Err,
    ensures
        read_lines(lines, m) == read_lines(lines, n),
    decreases m - n,
{
    if n < m {
        lemma_read_lines_error(lines, n, (m - 1) as nat);
    }
}

/// Appends the line number of the line at `index` to `s`.
fn push_line_number(s: &mut String, index: usize)
    requires
        index < usize::MAX,
    ensures
        final(s)@ == old(s)@ + line_number(index as int),
{
    push_decimal(s, index as u64 + 1);
}

/// Reads one trimmed line into the state, or gives the error it raises.
fn read_line_exec(
    version_seen: &mut bool,
    duplicate_limit: &mut Option<u32>,
    inventory: &mut Vec<(String, u32)>,
    line: &[char],
    index: usize,
) -> (r: Result<(), String>)
    requires
        index < usize::MAX,
    ensures
        match r {
            Ok(_) => read_line(
                (*old(version_seen), *old(duplicate_limit), pairs_view(old(inventory)@)),
                line@,
                index as int,
            ) == Ok::<ReadState, Seq<char>>(
                (*final(version_seen), *final(duplicate_limit), pairs_view(final(inventory)@)),
            ),
            Err(e) => read_line(
                (*old(version_seen), *old(duplicate_limit), pairs_view(old(inventory)@)),
                line@,
                index as int,
            ) == Err::<ReadState, Seq<char>>(e@),
        },
{
    if line.len() == 0 {
        return Ok(());
    }
    let version_key = chars_of("version=");
    if starts_with_chars(line, &version_key) {
        let version = copy_rest(line, version_key.len());
        let expected = chars_of(SAVE_VERSION);
        if chars_equal(&version, &expected) {
            *version_seen = true;
            return Ok(());
        }
        let mut message = String::new();
        message.append("unsupported save version `");
        push_chars(&mut message, &version);
        message.append("`");
        return Err(message);
    }
    let limit_key = chars_of("duplicate_limit=");
    if starts_with_chars(line, &limit_key) {
        let digits = copy_rest(line, limit_key.len());
        match parse_u32_chars(&digits) {
            Some(n) => {
                *duplicate_limit = Some(if n >= 1 { n } else { 1 });
                return Ok(());
            },
            None => {
                let mut message = String::new();
                message.append("invalid duplicate limit on save line ");
                push_line_number(&mut message, index);
                return Err(message);
            },
        }
    }
    let fruit_key = chars_of("fruit=");
    if starts_with_chars(line, &fruit_key) {
        let entry = copy_rest(line, fruit_key.len());
        match split_at_tab_chars(&entry) {
            None => {
                let mut message = String::new();
                message.append("invalid fruit entry on save line ");
                push_line_number(&mut message, index);
                return Err(message);
            },
            Some((name, qty_text)) => match parse_u32_chars(&qty_text) {
                None => {
                    let mut message = String::new();
                    message.append("invalid fruit quantity on save line ");
                    push_line_number(&mut message, index);
                    return Err(message);
                },
                Some(qty) => {
                    if name.len() > 0 && qty > 0 {
                        let ghost before = inventory@;
                        inventory.push((string_from_chars(&name), qty));
                        assert(pairs_view(inventory@) =~= pairs_view(before).push((name@, qty)));
                    }
                    return Ok(());
                },
            },
        }
    }
    let mut message = String::new();
    message.append("unrecognized save line ");
    push_line_number(&mut message, index);
    Err(message)
}

/// The characters of `s` from `from` on.
fn copy_rest(s: &[char], from: usize) -> (r: Vec<char>)
    requires
        from <= s.len(),
    ensures
        r@ == s@.skip(from as int),
{
    let r = crate::text::copy_range(s, from, s.len());
    assert(s@.subrange(from as int, s@.len() as int) =~= s@.skip(from as int));
    r
}

/// Reads a save file's text: the save data, or the message of the first
/// error. Blank lines are skipped and every line is trimmed; the version
/// line must be present and name version `1`; the last duplicate limit
/// line counts, raised to at least one, and without one the limit is one;
/// each fruit line names a fruit and a count, and fruits with an empty
/// name or a count of zero are left out.
pub fn parse_save(contents: &str) -> (r: Result<SaveData, String>)
    ensures
        match r {
            Ok(d) => read_save(contents@) == Ok::<(u32, Seq<(Seq<char>, u32)>), Seq<char>>(d@),
            Err(e) => read_save(contents@) == Err::<(u32, Seq<(Seq<char>, u32)>), Seq<char>>(e@),
        },
{
    let chars = chars_of(contents);
    let lines = split_lines_chars(&chars);
    let ghost lv = lines@.map_values(|l: Vec<char>| l@);
    let mut version_seen = false;
    let mut duplicate_limit: Option<u32> = None;
    let mut inventory: Vec<(String, u32)> = Vec::new();
    let mut index: usize = 0;
    assert(pairs_view(inventory@) =~= Seq::<(Seq<char>, u32)>::empty());
    while index < lines.len()
        invariant
            index <= lines@.len(),
            lv == lines@.map_values(|l: Vec<char>| l@),
            lv == split_lines(contents@),
            read_lines(lv, index as nat) == Ok::<ReadState, Seq<char>>(
                (version_seen, duplicate_limit, pairs_view(inventory@)),
            ),
        decreases lines@.len() - index,
    {
        let line = trim_chars(&lines[index]);
        assert(lv[index as int] == lines@[index as int]@);
        match read_line_exec(&mut version_seen, &mut duplicate_limit, &mut inventory, &line, index) {
            Ok(()) => {},
            Err(message) => {
                proof {
                    lemma_read_lines_error(lv, (index + 1) as nat, lv.len());
                }
                return Err(message);
            },
        }
        index = index + 1;
    }
    if !version_seen {
        let mut message = String::new();
        message.append("save file is missing version");
        return Err(message);
    }
    let limit = match duplicate_limit {
        Some(n) => n,
        None => 1,
    };
    Ok(SaveData { duplicate_limit: limit, inventory })
}

// ---------------------------------------------------------------------------
// The pool, the DLC codes, the save location, the game state
// ---------------------------------------------------------------------------

/// The fruits of the default pool: name, rarity and weight, in the pool's
/// order. Weights count ten-thousandths of a point: 30 points is `300_000`,
/// a hundredth of a point `100`. The Dragon's weight, a tiny positive
/// amount far below a ten-thousandth, is the smallest positive weight, `1`:
/// extremely rare, but possible. Only the Piranha weighs nothing.
pub open spec fn default_pool_spec() -> Seq<(Seq<char>, Rarity, u32)> {
    seq![
        ("Rocket"@, Rarity::Common, 300_000u32),
        ("Spin"@, Rarity::Common, 300_000u32),
        ("diamond"@, Rarity::Rare, 290_000u32),
        ("flame"@, Rarity::Rare, 290_000u32),
        ("Light"@, Rarity::Epic, 100_000u32),
        ("Magma"@, Rarity::Epic, 100_000u32),
        ("Portal"@, Rarity::Legendary, 1u32),
        ("Phoenix"@, Rarity::Legendary, 100u32),
        ("Piranha"@, Rarity::Mythical, 0u32),
        ("Dragon"@, Rarity::Mythical, 1u32),
    ]
}

/// A pool's fruits as name, rarity and weight.
pub open spec fn pool_view(pool: Seq<FruitDef>) -> Seq<(Seq<char>, Rarity, u32)> {
    pool.map_values(|f: FruitDef| (f.name@, f.rarity, f.weight))
}

/// The default fruit pool.
pub fn default_fruit_pool() -> (r: Vec<FruitDef>)
    ensures
        pool_view(r@) == default_pool_spec(),
{
    let r = vec![
        FruitDef::new("Rocket", Rarity::Common, 300_000),
        FruitDef::new("Spin", Rarity::Common, 300_000),
        FruitDef::new("diamond", Rarity::Rare, 290_000),
        FruitDef::new("flame", Rarity::Rare, 290_000),
        FruitDef::new("Light", Rarity::Epic, 100_000),
        FruitDef::new("Magma", Rarity::Epic, 100_000),
        FruitDef::new("Portal", Rarity::Legendary, 1),
        FruitDef::new("Phoenix", Rarity::Legendary, 100),
        FruitDef::new("Piranha", Rarity::Mythical, 0),
        FruitDef::new("Dragon", Rarity::Mythical, 1),
    ];
    assert(pool_view(r@) =~= default_pool_spec());
    r
}

/// In the default pool only the Piranha weighs nothing; the Mythical
/// Dragon, the lightest fruit that has a weight, is drawn by the last roll
/// below the total weight, so it can be drawn.
pub proof fn lemma_default_pool_weights(pool: Seq<FruitDef>)
    requires
        pool_view(pool) == default_pool_spec(),
    ensures
        pool.len() == 10,
        forall|i: int| 0 <= i < 10 && i != 8 ==> #[trigger] pool[i].weight > 0,
        pool[8].weight == 0,
        pool[9].rarity == Rarity::Mythical,
        weight_sum(pool) == 1_380_102,
        in_slot(pool, 9, 1_380_101),
{
    assert(pool.len() == pool_view(pool).len());
    assert forall|i: int| 0 <= i < 10 implies #[trigger] pool[i].weight == default_pool_spec()[i].2
        && pool[i].rarity == default_pool_spec()[i].1 by {
        assert(pool_view(pool)[i] == (pool[i].name@, pool[i].rarity, pool[i].weight));
    }
    assert(pool.take(0) =~= Seq::<FruitDef>::empty());
    lemma_weight_sum_prefix(pool, 0, 1);
    lemma_weight_sum_prefix(pool, 1, 2);
    lemma_weight_sum_prefix(pool, 2, 3);
    lemma_weight_sum_prefix(pool, 3, 4);
    lemma_weight_sum_prefix(pool, 4, 5);
    lemma_weight_sum_prefix(pool, 5, 6);
    lemma_weight_sum_prefix(pool, 6, 7);
    lemma_weight_sum_prefix(pool, 7, 8);
    lemma_weight_sum_prefix(pool, 8, 9);
    lemma_weight_sum_prefix(pool, 9, 10);
    assert(weight_sum(pool.take(9)) == 1_380_101);
}

/// The default pool's fruits and rarities: Rocket and Spin are Common,
/// diamond and flame Rare, Light and Magma Epic, Portal and Phoenix
/// Legendary, Piranha and Dragon Mythical; and a rarer fruit never weighs
/// more than a commoner one.
pub proof fn lemma_default_pool_rarities(pool: Seq<FruitDef>)
    requires
        pool_view(pool) == default_pool_spec(),
    ensures
        pool.len() == 10,
        pool[0].name@ == "Rocket"@ && pool[0].rarity == Rarity::Common,
        pool[1].name@ == "Spin"@ && pool[1].rarity == Rarity::Common,
        pool[2].name@ == "diamond"@ && pool[2].rarity == Rarity::Rare,
        pool[3].name@ == "flame"@ && pool[3].rarity == Rarity::Rare,
        pool[4].name@ == "Light"@ && pool[4].rarity == Rarity::Epic,
        pool[5].name@ == "Magma"@ && pool[5].rarity == Rarity::Epic,
        pool[6].name@ == "Portal"@ && pool[6].rarity == Rarity::Legendary,
        pool[7].name@ == "Phoenix"@ && pool[7].rarity == Rarity::Legendary,
        pool[8].name@ == "Piranha"@ && pool[8].rarity == Rarity::Mythical,
        pool[9].name@ == "Dragon"@ && pool[9].rarity == Rarity::Mythical,
        forall|i: int, j: int|
            0 <= i < 10 && 0 <= j < 10 && rarity_rank(#[trigger] pool[i].rarity) < rarity_rank(
                #[trigger] pool[j].rarity,
            ) ==> pool[i].weight >= pool[j].weight,
{
    assert(pool.len() == pool_view(pool).len());
    assert forall|i: int| 0 <= i < 10 implies #[trigger] pool[i].weight == default_pool_spec()[i].2
        && pool[i].rarity == default_pool_spec()[i].1 && pool[i].name@ == default_pool_spec()[i].0 by {
        assert(pool_view(pool)[i] == (pool[i].name@, pool[i].rarity, pool[i].weight));
    }
}

/// `code` is accepted by the code list `contents`: trimmed, it is not
/// empty and equals some line of the list, trimmed.
pub open spec fn dlc_code_listed(code: Seq<char>, contents: Seq<char>) -> bool {
    let wanted = trim(code);
    let lines = split_lines(contents);
    wanted.len() > 0 && exists|i: int| 0 <= i < lines.len() && trim(#[trigger] lines[i]) == wanted
}

/// A code that stands on a line of its own in the list is accepted, with
/// whatever lines come before and after it: lines are separated by line
/// feeds, and both the code and the line are trimmed.
pub proof fn lemma_listed_code_accepted(before: Seq<char>, code: Seq<char>, after: Seq<char>)
    requires
        !code.contains('\n'),
        trim(code).len() > 0,
    ensures
        dlc_code_listed(code, before + seq!['\n'] + code + seq!['\n'] + after),
{
    let list = before + seq!['\n'] + code + seq!['\n'] + after;
    crate::text::lemma_split_lines_concat(before, code + seq!['\n'] + after);
    crate::text::lemma_split_lines_concat(code, after);
    crate::text::lemma_split_lines_single(code);
    assert(list =~= before + seq!['\n'] + (code + seq!['\n'] + after));
    let lines = split_lines(list);
    let k = split_lines(before).len() as int;
    assert(lines == split_lines(before) + (seq![code] + split_lines(after)));
    assert(lines[k] == code);
    assert(trim(lines[k]) == trim(code));
}

/// A code is accepted only if some line of the list, trimmed, is exactly
/// the trimmed code: a code that differs from every trimmed line, such as
/// one that merely begins with a listed code, is rejected, and so is a
/// blank code.
pub proof fn lemma_unlisted_code_rejected(code: Seq<char>, contents: Seq<char>)
    requires
        trim(code).len() == 0 || forall|i: int|
            0 <= i < split_lines(contents).len() ==> trim(#[trigger] split_lines(contents)[i])
                != trim(code),
    ensures
        !dlc_code_listed(code, contents),
{
}

/// Whether `code` is empty once trimmed; such a code is never accepted.
pub fn dlc_code_is_blank(code: &str) -> (r: bool)
    ensures
        r == (trim(code@).len() == 0),
{
    let chars = chars_of(code);
    let trimmed = trim_chars(&chars);
    trimmed.len() == 0
}

/// Whether the code list `contents` accepts `code`: some non-empty line of
/// the list, trimmed, equals the trimmed code.
pub fn dlc_code_matches(code: &str, contents: &str) -> (r: bool)
    ensures
        r == dlc_code_listed(code@, contents@),
        r ==> trim(code@).len() > 0 && exists|i: int|
            0 <= i < split_lines(contents@).len() && trim(#[trigger] split_lines(contents@)[i])
                == trim(code@),
        (forall|i: int|
            0 <= i < split_lines(contents@).len() ==> trim(#[trigger] split_lines(contents@)[i])
                != trim(code@)) ==> !r,
{
    let code_chars = chars_of(code);
    let wanted = trim_chars(&code_chars);
    if wanted.len() == 0 {
        return false;
    }
    let content_chars = chars_of(contents);
    let lines = split_lines_chars(&content_chars);
    let ghost lv = lines@.map_values(|l: Vec<char>| l@);
    let mut i: usize = 0;
    while i < lines.len()
        invariant
            i <= lines@.len(),
            lv == lines@.map_values(|l: Vec<char>| l@),
            lv == split_lines(contents@),
            wanted@ == trim(code@),
            wanted@.len() > 0,
            forall|k: int| 0 <= k < i ==> trim(#[trigger] lv[k]) != wanted@,
        decreases lines@.len() - i,
    {
        let stored = trim_chars(&lines[i]);
        assert(lv[i as int] == lines@[i as int]@);
        if stored.len() > 0 && chars_equal(&stored, &wanted) {
            return true;
        }
        i = i + 1;
    }
    false
}

/// The parts of the default save path: under a non-empty application data
/// directory, `oneLuck/save.txt`; else under a non-empty home directory,
/// `.gatcha/oneLuck-save.txt`; else `.gatcha/oneLuck-save.txt` where the
/// program runs.
pub open spec fn save_path_parts(appdata: Option<Seq<char>>, home: Option<Seq<char>>) -> Seq<Seq<char>> {
    if appdata is Some && appdata->0.len() > 0 {
        seq![appdata->0, "oneLuck"@, SAVE_FILE_NAME@]
    } else if home is Some && home->0.len() > 0 {
        seq![home->0, ".gatcha"@, "oneLuck-save.txt"@]
    } else {
        seq![".gatcha"@, "oneLuck-save.txt"@]
    }
}

/// A string's characters, where there is one.
pub open spec fn option_view(s: Option<String>) -> Option<Seq<char>> {
    match s {
        Some(t) => Some(t@),
        None => None,
    }
}

/// The default save path, as the parts to join, given the application data
/// directory and the home directory where they are set.
pub fn default_save_path(appdata: Option<String>, home: Option<String>) -> (r: Vec<String>)
    ensures
        r@.map_values(|p: String| p@) == save_path_parts(option_view(appdata), option_view(home)),
        appdata is Some && appdata->0@.len() > 0 ==> r@.len() == 3 && r@[0] == appdata->0
            && r@[1]@ == "oneLuck"@ && r@[2]@ == SAVE_FILE_NAME@,
        !(appdata is Some && appdata->0@.len() > 0) && home is Some && home->0@.len() > 0
            ==> r@.len() == 3 && r@[0] == home->0 && r@[1]@ == ".gatcha"@ && r@[2]@
            == "oneLuck-save.txt"@,
        !(appdata is Some && appdata->0@.len() > 0) && !(home is Some && home->0@.len() > 0)
            ==> r@.len() == 2 && r@[0]@ == ".gatcha"@ && r@[1]@ == "oneLuck-save.txt"@,
{
    let ghost a = option_view(appdata);
    let ghost h = option_view(home);
    let mut r: Vec<String> = Vec::new();
    match appdata {
        Some(dir) if !dir.as_str().is_empty() => {
            r.push(dir);
            r.push(String::from_str("oneLuck"));
            r.push(String::from_str(SAVE_FILE_NAME));
        },
        _ => {
            match home {
                Some(dir) if !dir.as_str().is_empty() => {
                    r.push(dir);
                    r.push(String::from_str(".gatcha"));
                    r.push(String::from_str("oneLuck-save.txt"));
                },
                _ => {
                    r.push(String::from_str(".gatcha"));
                    r.push(String::from_str("oneLuck-save.txt"));
                },
            }
        },
    }
    assert(r@.map_values(|p: String| p@) =~= save_path_parts(a, h));
    r
}

/// Where the save file goes: a non-empty application data directory wins;
/// without one, whether unset or empty, a non-empty home directory is used;
/// without either, the path is relative to where the program runs. The
/// directory given is always the first part of the path.
pub proof fn lemma_save_path_choice(appdata: Option<Seq<char>>, home: Option<Seq<char>>)
    ensures
        appdata is Some && appdata->0.len() > 0 ==> save_path_parts(appdata, home) == seq![
            appdata->0,
            "oneLuck"@,
            SAVE_FILE_NAME@,
        ],
        (appdata is None || appdata->0.len() == 0) && home is Some && home->0.len() > 0
            ==> save_path_parts(appdata, home) == seq![home->0, ".gatcha"@, "oneLuck-save.txt"@],
        (appdata is None || appdata->0.len() == 0) && (home is None || home->0.len() == 0)
            ==> save_path_parts(appdata, home) == seq![".gatcha"@, "oneLuck-save.txt"@],
        save_path_parts(None, home) == save_path_parts(Some(Seq::<char>::empty()), home),
{
}

/// The save data that records `inventory` and `dlc_state`: the duplicate
/// limit, and the fruits held in ascending order of name.
pub fn save_data_from(inventory: &PlayerInventory, dlc_state: DlcState) -> (r: SaveData)
    requires
        inventory.wf(),
    ensures
        r.duplicate_limit == dlc_state.duplicate_limit,
        names_ascending(pairs_view(r.inventory@)),
        listing_map(pairs_view(r.inventory@)) == inventory@,
{
    SaveData { duplicate_limit: dlc_state.duplicate_limit, inventory: inventory.entries() }
}

// ---------------------------------------------------------------------------
// Writing, then reading back
// ---------------------------------------------------------------------------

/// The fruit lines that `fruit_lines_text` writes for `inv`, without their
/// line feeds.
pub open spec fn fruit_line_list(inv: Seq<(Seq<char>, u32)>) -> Seq<Seq<char>>
    decreases inv.len(),
{
    if inv.len() == 0 {
        Seq::empty()
    } else if inv.last().1 == 0 {
        fruit_line_list(inv.drop_last())
    } else {
        fruit_line_list(inv.drop_last()).push(fruit_line(inv.last().0, inv.last().1))
    }
}

/// The fruits of `inv` that reading keeps: those with a non-empty name and a
/// positive count, in order.
pub open spec fn kept_fruits(inv: Seq<(Seq<char>, u32)>) -> Seq<(Seq<char>, u32)>
    decreases inv.len(),
{
    if inv.len() == 0 {
        Seq::empty()
    } else if inv.last().0.len() > 0 && inv.last().1 > 0 {
        kept_fruits(inv.drop_last()).push(inv.last())
    } else {
        kept_fruits(inv.drop_last())
    }
}

/// No fruit name holds a line feed or a tab.
pub open spec fn names_are_plain(inv: Seq<(Seq<char>, u32)>) -> bool {
    forall|i: int| 0 <= i < inv.len() ==> !(#[trigger] inv[i]).0.contains('\n') && !inv[i].0.contains('\t')
}

/// Appending text without a line feed extends the last piece.
proof fn lemma_split_lines_append_plain(a: Seq<char>, l: Seq<char>)
    requires
        !l.contains('\n'),
    ensures
        split_lines(a + l) == split_lines(a).update(
            split_lines(a).len() - 1,
            split_lines(a).last() + l,
        ),
    decreases l.len(),
{
    crate::text::lemma_split_lines_nonempty(a);
    if l.len() == 0 {
        assert(a + l =~= a);
        assert(split_lines(a).last() + l =~= split_lines(a).last());
        assert(split_lines(a).update(split_lines(a).len() - 1, split_lines(a).last())
            =~= split_lines(a));
    } else {
        let p = l.drop_last();
        assert(!p.contains('\n')) by {
            if p.contains('\n') {
                let k = choose|k: int| 0 <= k < p.len() && p[k] == '\n';
                assert(l[k] == '\n');
            }
        }
        lemma_split_lines_append_plain(a, p);
        assert((a + l).drop_last() =~= a + p);
        assert((a + l).last() == l.last());
        assert(l.last() != '\n') by {
            assert(l[l.len() - 1] == l.last());
        }
        crate::text::lemma_split_lines_nonempty(a + p);
        let sp = split_lines(a + p);
        assert(split_lines(a + l) == sp.update(sp.len() - 1, sp.last().push(l.last())));
        assert((split_lines(a).last() + p).push(l.last()) =~= split_lines(a).last() + l);
        assert(sp.update(sp.len() - 1, sp.last().push(l.last())) =~= split_lines(a).update(
            split_lines(a).len() - 1,
            split_lines(a).last() + l,
        ));
    }
}

proof fn lemma_split_lines_append_line(a: Seq<char>, l: Seq<char>)
    requires
        !l.contains('\n'),
        split_lines(a).last() == Seq::<char>::empty(),
    ensures
        split_lines(a + l + seq!['\n']) == split_lines(a).drop_last().push(l).push(Seq::<char>::empty()),
{
    crate::text::lemma_split_lines_nonempty(a);
    lemma_split_lines_append_plain(a, l);
    let b = a + l + seq!['\n'];
    assert(b.drop_last() =~= a + l);
    assert(b.last() == '\n');
    assert(Seq::<char>::empty() + l =~= l);
    assert(split_lines(a).update(split_lines(a).len() - 1, l) =~= split_lines(a).drop_last().push(l));
}

proof fn lemma_fruit_line_facts(name: Seq<char>, qty: u32)
    requires
        !name.contains('\n'),
        !name.contains('\t'),
    ensures
        !fruit_line(name, qty).contains('\n'),
        trim(fruit_line(name, qty)) == fruit_line(name, qty),
        !has_prefix(fruit_line(name, qty), "version="@),
        !has_prefix(fruit_line(name, qty), "duplicate_limit="@),
        has_prefix(fruit_line(name, qty), "fruit="@),
        fruit_line(name, qty).skip("fruit="@.len() as int) == name + "\t"@ + decimal(qty as nat),
        "\t"@ == seq!['\t'],
{
    reveal_strlit("fruit=");
    reveal_strlit("\t");
    reveal_strlit("version=");
    reveal_strlit("duplicate_limit=");
    crate::text::lemma_decimal_digits(qty as nat);
    let d = decimal(qty as nat);
    let l = fruit_line(name, qty);
    assert(l =~= "fruit="@ + (name + "\t"@ + d));
    assert(!l.contains('\n')) by {
        if l.contains('\n') {
            let k = choose|k: int| 0 <= k < l.len() && l[k] == '\n';
            if k < 6 {
            } else if k < 6 + name.len() {
                assert(name[k - 6] == '\n');
            } else if k == 6 + name.len() {
            } else {
                assert(d[k - 7 - name.len()] == '\n');
            }
        }
    }
    assert(l[0] == 'f');
    assert(l.last() == d.last());
    assert(d.last() == d[d.len() - 1]);
    crate::text::lemma_trim_unchanged(l);
    assert(l.take(8)[0] == 'f');
    if l.len() >= 16 {
        assert(l.take(16)[0] == 'f');
    }
    assert(l.take(6) =~= "fruit="@);
    assert(l.skip(6) =~= name + "\t"@ + d);
}

/// Writing fruit lines after a text that ends a line adds one piece per
/// fruit held a positive number of times, then an empty piece.
proof fn lemma_split_fruit_lines(a: Seq<char>, inv: Seq<(Seq<char>, u32)>)
    requires
        split_lines(a).last() == Seq::<char>::empty(),
        names_are_plain(inv),
    ensures
        split_lines(a + fruit_lines_text(inv)) == split_lines(a).drop_last() + fruit_line_list(inv).push(
            Seq::<char>::empty(),
        ),
    decreases inv.len(),
{
    crate::text::lemma_split_lines_nonempty(a);
    if inv.len() == 0 {
        assert(a + fruit_lines_text(inv) =~= a);
        assert(split_lines(a).drop_last() + seq![Seq::<char>::empty()] =~= split_lines(a));
        assert(fruit_line_list(inv).push(Seq::<char>::empty()) =~= seq![Seq::<char>::empty()]);
    } else {
        let init = inv.drop_last();
        assert(names_are_plain(init)) by {
            assert forall|i: int| 0 <= i < init.len() implies !(#[trigger] init[i]).0.contains('\n')
                && !init[i].0.contains('\t') by {
                assert(init[i] == inv[i]);
            }
        }
        lemma_split_fruit_lines(a, init);
        if inv.last().1 != 0 {
            let e = inv.last();
            assert(e == inv[inv.len() - 1]);
            lemma_fruit_line_facts(e.0, e.1);
            reveal_strlit("\n");
            let b = a + fruit_lines_text(init);
            let l = fruit_line(e.0, e.1);
            crate::text::lemma_split_lines_nonempty(b);
            assert(split_lines(b).last() == Seq::<char>::empty()) by {
                let p = split_lines(a).drop_last() + fruit_line_list(init);
                assert(split_lines(b) == p.push(Seq::<char>::empty()));
            }
            lemma_split_lines_append_line(b, l);
            assert(a + fruit_lines_text(inv) =~= b + l + seq!['\n']);
            assert(split_lines(b).drop_last() =~= split_lines(a).drop_last() + fruit_line_list(init));
        }
    }
}

/// The pieces of a save file's text: the version line, the duplicate limit
/// line, the fruit lines, then an empty piece.
proof fn lemma_split_save_text(d: (u32, Seq<(Seq<char>, u32)>))
    requires
        names_are_plain(d.1),
    ensures
        split_lines(save_text(d)) == seq![
            "version="@ + "1"@,
            "duplicate_limit="@ + decimal(d.0 as nat),
        ] + fruit_line_list(d.1).push(Seq::<char>::empty()),
{
    reveal_strlit("version=");
    reveal_strlit("1");
    reveal_strlit("\n");
    reveal_strlit("duplicate_limit=");
    crate::text::lemma_decimal_digits(d.0 as nat);
    let l1 = "version="@ + "1"@;
    let l2 = "duplicate_limit="@ + decimal(d.0 as nat);
    let e = Seq::<char>::empty();
    assert(!l1.contains('\n')) by {
        if l1.contains('\n') {
            let k = choose|k: int| 0 <= k < l1.len() && l1[k] == '\n';
        }
    }
    assert(!l2.contains('\n')) by {
        if l2.contains('\n') {
            let k = choose|k: int| 0 <= k < l2.len() && l2[k] == '\n';
            if k >= 16 {
                assert(decimal(d.0 as nat)[k - 16] == '\n');
            }
        }
    }
    assert(split_lines(e) == seq![e]);
    lemma_split_lines_append_line(e, l1);
    assert(e + l1 + seq!['\n'] =~= l1 + seq!['\n']);
    assert(seq![e].drop_last().push(l1).push(e) =~= seq![l1, e]);
    lemma_split_lines_append_line(l1 + seq!['\n'], l2);
    assert(seq![l1, e].drop_last().push(l2).push(e) =~= seq![l1, l2, e]);
    let h = l1 + seq!['\n'] + l2 + seq!['\n'];
    lemma_split_fruit_lines(h, d.1);
    assert(save_text(d) =~= h + fruit_lines_text(d.1));
    assert(seq![l1, l2, e].drop_last() =~= seq![l1, l2]);
}

/// Reading the first `n` lines looks at those lines only.
proof fn lemma_read_lines_prefix(a: Seq<Seq<char>>, b: Seq<Seq<char>>, n: nat)
    requires
        n <= a.len(),
        n <= b.len(),
        a.take(n as int) == b.take(n as int),
    ensures
        read_lines(a, n) == read_lines(b, n),
    decreases n,
{
    if n > 0 {
        assert(a.take(n - 1) =~= a.take(n as int).take(n - 1));
        assert(b.take(n - 1) =~= b.take(n as int).take(n - 1));
        lemma_read_lines_prefix(a, b, (n - 1) as nat);
        assert(a[n - 1] == a.take(n as int)[n - 1]);
        assert(b[n - 1] == b.take(n as int)[n - 1]);
    }
}

/// The lines of the save text of `(limit, inv)`.
spec fn save_lines(limit: u32, inv: Seq<(Seq<char>, u32)>) -> Seq<Seq<char>> {
    seq!["version="@ + "1"@, "duplicate_limit="@ + decimal(limit as nat)] + fruit_line_list(
        inv,
    ).push(Seq::<char>::empty())
}

/// Reading the header and fruit lines of a save text gathers the version,
/// the limit raised to one, and the kept fruits.
proof fn lemma_read_save_lines(limit: u32, inv: Seq<(Seq<char>, u32)>)
    requires
        names_are_plain(inv),
    ensures
        read_lines(save_lines(limit, inv), 2 + fruit_line_list(inv).len()) == Ok::<
            ReadState,
            Seq<char>,
        >((true, Some(if limit >= 1 { limit } else { 1u32 }), kept_fruits(inv))),
    decreases inv.len(),
{
    let lines = save_lines(limit, inv);
    let m: u32 = if limit >= 1 { limit } else { 1u32 };
    if inv.len() == 0 {
        reveal_strlit("version=");
        reveal_strlit("1");
        reveal_strlit("duplicate_limit=");
        crate::text::lemma_decimal_digits(limit as nat);
        crate::text::lemma_parse_decimal(limit);
        let l1 = "version="@ + "1"@;
        let l2 = "duplicate_limit="@ + decimal(limit as nat);
        assert(lines[0] == l1);
        assert(lines[1] == l2);
        crate::text::lemma_trim_unchanged(l1);
        assert(l1.take(8) =~= "version="@);
        assert(l1.skip(8) =~= "1"@);
        assert(has_prefix(l1, "version="@));
        assert(l1.skip("version="@.len() as int) == "1"@);
        assert(read_line((false, None, Seq::empty()), l1, 0) == Ok::<ReadState, Seq<char>>(
            (true, None, Seq::empty()),
        ));
        assert(read_lines(lines, 0) == Ok::<ReadState, Seq<char>>((false, None, Seq::empty())));
        assert(trim(lines[0]) == l1);
        assert(read_lines(lines, 1) == Ok::<ReadState, Seq<char>>((true, None, Seq::empty())));
        let dec = decimal(limit as nat);
        assert(l2.last() == dec.last());
        assert(dec.last() == dec[dec.len() - 1]);
        crate::text::lemma_trim_unchanged(l2);
        assert(l2.take(8)[0] == 'd');
        assert(l2.take(16) =~= "duplicate_limit="@);
        assert(l2.skip(16) =~= dec);
        assert(fruit_line_list(inv).len() == 0);
        assert(kept_fruits(inv) =~= Seq::<(Seq<char>, u32)>::empty());
    } else {
        let init = inv.drop_last();
        assert(names_are_plain(init)) by {
            assert forall|i: int| 0 <= i < init.len() implies !(#[trigger] init[i]).0.contains('\n')
                && !init[i].0.contains('\t') by {
                assert(init[i] == inv[i]);
            }
        }
        lemma_read_save_lines(limit, init);
        let k = 2 + fruit_line_list(init).len();
        let lines0 = save_lines(limit, init);
        assert(lines.take(k as int) =~= lines0.take(k as int));
        lemma_read_lines_prefix(lines, lines0, k as nat);
        let e = inv.last();
        assert(e == inv[inv.len() - 1]);
        if e.1 != 0 {
            lemma_fruit_line_facts(e.0, e.1);
            crate::text::lemma_split_at_tab_concat(e.0, decimal(e.1 as nat));
            crate::text::lemma_parse_decimal(e.1);
            assert(lines[k as int] == fruit_line(e.0, e.1));
        }
    }
}

/// Writing a save file and reading it back gives the duplicate limit,
/// raised to at least one, and the fruits with a non-empty name and a
/// positive count, in the order written; names must hold no line feed and
/// no tab.
pub proof fn lemma_save_then_read(d: (u32, Seq<(Seq<char>, u32)>))
    requires
        names_are_plain(d.1),
    ensures
        read_save(save_text(d)) == Ok::<(u32, Seq<(Seq<char>, u32)>), Seq<char>>(
            (if d.0 >= 1 { d.0 } else { 1u32 }, kept_fruits(d.1)),
        ),
{
    lemma_split_save_text(d);
    lemma_read_save_lines(d.0, d.1);
    let lines = save_lines(d.0, d.1);
    assert(split_lines(save_text(d)) == lines);
    let n = 2 + fruit_line_list(d.1).len();
    assert(lines[n as int] == Seq::<char>::empty());
    assert(trim(Seq::<char>::empty()) == Seq::<char>::empty());
    assert(lines.len() == n + 1);
}

/// Keeping the fruits of a listing whose names are all non-empty and whose
/// counts are all positive keeps them all.
proof fn lemma_kept_all(inv: Seq<(Seq<char>, u32)>)
    requires
        forall|i: int| 0 <= i < inv.len() ==> (#[trigger] inv[i]).0.len() > 0 && inv[i].1 > 0,
    ensures
        kept_fruits(inv) == inv,
    decreases inv.len(),
{
    if inv.len() > 0 {
        let init = inv.drop_last();
        assert forall|i: int| 0 <= i < init.len() implies (#[trigger] init[i]).0.len() > 0
            && init[i].1 > 0 by {
            assert(init[i] == inv[i]);
        }
        lemma_kept_all(init);
        assert(inv.last() == inv[inv.len() - 1]);
        assert(init.push(inv.last()) =~= inv);
    }
}

/// A save file read back gives the very save data that was written, when
/// the duplicate limit is at least one and every fruit has a non-empty name
/// without line feed or tab and a positive count.
pub proof fn lemma_save_round_trip(d: SaveData)
    requires
        d.duplicate_limit >= 1,
        names_are_plain(d@.1),
        forall|i: int| 0 <= i < d@.1.len() ==> (#[trigger] d@.1[i]).0.len() > 0 && d@.1[i].1 > 0,
    ensures
        read_save(save_text(d@)) == Ok::<(u32, Seq<(Seq<char>, u32)>), Seq<char>>(d@),
{
    lemma_save_then_read(d@);
    lemma_kept_all(d@.1);
}

/// Rebuilding counts from the kept fruits of a listing of distinct names
/// gives every name the count it had; fruits held zero times simply stay
/// absent. A name with a positive count must be non-empty.
proof fn lemma_kept_fruits_quantities(s: Seq<(Seq<char>, u32)>)
    requires
        names_ascending(s),
        forall|i: int| 0 <= i < s.len() && (#[trigger] s[i]).1 > 0 ==> s[i].0.len() > 0,
    ensures
        forall|n: Seq<char>| #[trigger] quantity(map_from_pairs(kept_fruits(s)), n) == quantity(
            listing_map(s),
            n,
        ),
    decreases s.len(),
{
    crate::inventory::lemma_rebuild_from_listing(s);
    if s.len() > 0 {
        let init = s.drop_last();
        let last = s.last();
        assert(last == s[s.len() - 1]);
        assert(names_ascending(init)) by {
            assert forall|i: int, j: int| 0 <= i < j < init.len() implies text_before(
                #[trigger] init[i].0,
                #[trigger] init[j].0,
            ) by {
                assert(init[i] == s[i] && init[j] == s[j]);
            }
        }
        assert forall|i: int| 0 <= i < init.len() && (#[trigger] init[i]).1 > 0 implies init[i].0.len()
            > 0 by {
            assert(init[i] == s[i]);
        }
        lemma_kept_fruits_quantities(init);
        crate::inventory::lemma_rebuild_from_listing(init);
        assert(!listing_map(init).contains_key(last.0)) by {
            if listing_map(init).contains_key(last.0) {
                let i = choose|i: int| 0 <= i < init.len() && #[trigger] init[i].0 == last.0;
                assert(init[i] == s[i]);
                assert(text_before(s[i].0, s[s.len() - 1].0));
                crate::text::lemma_text_before_total(last.0, last.0);
            }
        }
        assert forall|n: Seq<char>| #[trigger] quantity(map_from_pairs(kept_fruits(s)), n)
            == quantity(listing_map(s), n) by {
            assert(quantity(map_from_pairs(kept_fruits(init)), n) == quantity(listing_map(init), n));
            assert(listing_map(s) == map_from_pairs(s));
            assert(map_from_pairs(s) == map_from_pairs(init).insert(last.0, last.1));
            assert(map_from_pairs(init) == listing_map(init));
            if last.0.len() > 0 && last.1 > 0 {
                assert(kept_fruits(s) == kept_fruits(init).push(last));
                assert(kept_fruits(s).drop_last() =~= kept_fruits(init));
                assert(map_from_pairs(kept_fruits(s)) == map_from_pairs(kept_fruits(init)).insert(
                    last.0,
                    last.1,
                ));
            } else {
                assert(last.1 == 0);
                assert(kept_fruits(s) == kept_fruits(init));
            }
        }
    }
}

/// Saving the game and loading it back restores the same duplicate limit
/// and the same inventory: the listing that `save_data_from` records, once
/// written and read, keeps its fruits held a positive number of times, and
/// rebuilding from them gives every fruit the count it had, zero for those
/// held zero times. When every count is positive the listing comes back
/// whole. Fruit names must hold no line feed or tab, names held a positive
/// number of times must be non-empty, and the limit must be at least one.
pub proof fn lemma_game_state_round_trip(limit: u32, listing: Seq<(Seq<char>, u32)>)
    requires
        limit >= 1,
        names_ascending(listing),
        names_are_plain(listing),
        forall|i: int| 0 <= i < listing.len() && (#[trigger] listing[i]).1 > 0 ==> listing[i].0.len()
            > 0,
    ensures
        read_save(save_text((limit, listing))) == Ok::<(u32, Seq<(Seq<char>, u32)>), Seq<char>>(
            (limit, kept_fruits(listing)),
        ),
        forall|n: Seq<char>| #[trigger] quantity(map_from_pairs(kept_fruits(listing)), n) == quantity(
            listing_map(listing),
            n,
        ),
        (forall|i: int| 0 <= i < listing.len() ==> (#[trigger] listing[i]).1 > 0) ==> kept_fruits(
            listing,
        ) == listing && map_from_pairs(listing) == listing_map(listing),
{
    lemma_save_then_read((limit, listing));
    lemma_kept_fruits_quantities(listing);
    crate::inventory::lemma_rebuild_from_listing(listing);
    if forall|i: int| 0 <= i < listing.len() ==> (#[trigger] listing[i]).1 > 0 {
        lemma_kept_all(listing);
    }
}

/// A code that is blank once trimmed is never accepted.
pub proof fn lemma_blank_code_rejected(code: Seq<char>, contents: Seq<char>)
    requires
        trim(code).len() == 0,
    ensures
        !dlc_code_listed(code, contents),
{
}

} // verus!
