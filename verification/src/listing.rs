//! The flat lister: the children of one directory are put in order,
//! classified, filtered and laid out.

use crate::columns::{
    display_text, lemma_one_per_line, listing_rows, listing_text, print_entries, render_entries,
};
use crate::config::Config;
use crate::entry::{
    category_of, entry_views, format_entry, format_view, formatted, hidden_name, raw_views,
    EntryView, FormattedEntry, RawEntry, RawEntryView,
};
use crate::order::{
    arranged, arranged_prefix, insert_position, lemma_arranged_prefix_step,
    lemma_arranged_unique, lemma_sort_order_sorted, path_le, paths_of, sort_order, sort_prefix,
    sorted_indices,
};
use crate::terminal::width_or_default;
use vstd::prelude::*;

verus! {

/// The paths of raw entries.
pub open spec fn raw_paths(entries: Seq<RawEntryView>) -> Seq<Seq<u8>> {
    entries.map_values(|e: RawEntryView| e.path)
}

/// The raw entries in the order of their paths.
pub open spec fn in_order(entries: Seq<RawEntryView>) -> Seq<RawEntryView> {
    arranged(entries, raw_paths(entries))
}

/// The display record under which a raw entry is listed, if it is listed:
/// it must have one, and it must not be hidden unless hidden entries are
/// asked for.
pub open spec fn shown(entry: RawEntryView, config: Config) -> Option<EntryView> {
    match format_view(entry) {
        Some(e) => if !e.is_hidden || config.show_hidden {
            Some(e)
        } else {
            None
        },
        None => None,
    }
}

/// The entries of a listing: those of the raw entries that are shown, in
/// the order of their paths.
pub open spec fn visible(entries: Seq<RawEntryView>, config: Config) -> Seq<EntryView> {
    in_order(entries).filter_map(|e: RawEntryView| shown(e, config))
}

/// Puts the raw entries in order, classifies them and drops those that
/// cannot be classified or are hidden from this listing.
pub fn visible_entries(entries: &Vec<RawEntry>, config: &Config) -> (listed: Vec<FormattedEntry>)
    ensures
        entry_views(listed@) == visible(raw_views(entries@), *config),
{
    let ghost raws = raw_views(entries@);
    let ghost ordered = in_order(raws);
    let ghost keep = |e: RawEntryView| shown(e, *config);
    let order = sorted_indices(entries);
    let mut listed: Vec<FormattedEntry> = Vec::new();
    let mut k: usize = 0;
    proof {
        assert(paths_of(entries@) =~= raw_paths(raws));
        assert(ordered.len() == order@.len());
        assert(ordered.take(0) =~= Seq::<RawEntryView>::empty());
        assert(entry_views(listed@) =~= Seq::<EntryView>::empty());
    }
    while k < order.len()
        invariant
            raws == raw_views(entries@),
            ordered == in_order(raws),
            keep == |e: RawEntryView| shown(e, *config),
            order@.map_values(|i: usize| i as int) == sort_order(raw_paths(raws)),
            order@.len() == entries@.len(),
            forall|j: int| 0 <= j < order@.len() ==> #[trigger] order@[j] < entries@.len(),
            0 <= k <= order@.len(),
            entry_views(listed@) == ordered.take(k as int).filter_map(keep),
        decreases order@.len() - k,
    {
        let entry = &entries[order[k]];
        proof {
            assert(order@.map_values(|i: usize| i as int)[k as int] == order@[k as int]);
            assert(ordered[k as int] == entry@);
            ordered.lemma_filter_map_take_succ(keep, k as int);
        }
        let ghost before = listed@;
        match format_entry(entry) {
            Some(formatted) => {
                if !formatted.is_hidden || config.show_hidden {
                    listed.push(formatted);
                    proof {
                        assert(entry_views(listed@) =~= entry_views(before).push(formatted@));
                    }
                }
            },
            None => {},
        }
        k += 1;
    }
    proof {
        assert(ordered.take(order@.len() as int) =~= ordered);
    }
    listed
}

/// The listing of a directory for a terminal of `term_width` columns.
pub fn render_listing(entries: &Vec<RawEntry>, config: &Config, term_width: u16) -> (out: String)
    ensures
        out@ == listing_text(visible(raw_views(entries@), *config), *config, term_width as nat),
{
    let listed = visible_entries(entries, config);
    render_entries(&listed, config, term_width)
}

/// The listing of a directory for the terminal behind standard output, or
/// for 80 columns where its width cannot be had.
pub fn list_directory(entries: &Vec<RawEntry>, config: &Config) -> (out: String)
    ensures
        exists|columns: Option<u16>|
            out@ == listing_text(
                visible(raw_views(entries@), *config),
                *config,
                #[trigger] width_or_default(columns) as nat,
            ),
{
    let listed = visible_entries(entries, config);
    print_entries(listed, *config)
}

/// The raw entries in order are the raw entries, none dropped, sorted by
/// path.
pub proof fn lemma_in_order_sorted(entries: Seq<RawEntryView>)
    ensures
        in_order(entries).len() == entries.len(),
        forall|j: int|
            0 <= j < entries.len() ==> in_order(entries).contains(#[trigger] entries[j]),
        forall|a: int, b: int|
            0 <= a < b < entries.len() ==> path_le(
                (#[trigger] in_order(entries)[a]).path,
                (#[trigger] in_order(entries)[b]).path,
            ),
{
    let paths = raw_paths(entries);
    let order = sort_order(paths);
    let sorted = in_order(entries);
    lemma_sort_order_sorted(paths);
    assert forall|j: int| 0 <= j < entries.len() implies sorted.contains(
        #[trigger] entries[j],
    ) by {
        assert(order.contains(j));
        let p = choose|p: int| 0 <= p < order.len() && order[p] == j;
        assert(sorted[p] == entries[j]);
    }
    assert forall|a: int, b: int| 0 <= a < b < entries.len() implies path_le(
        (#[trigger] sorted[a]).path,
        (#[trigger] sorted[b]).path,
    ) by {
        assert(path_le(paths[order[a]], paths[order[b]]));
    }
}

/// An entry that is shown is in the listing.
proof fn lemma_filter_map_keeps(entries: Seq<RawEntryView>, config: Config, p: int)
    requires
        0 <= p < entries.len(),
        shown(entries[p], config) is Some,
    ensures
        entries.filter_map(|e: RawEntryView| shown(e, config)).contains(
            shown(entries[p], config)->0,
        ),
    decreases entries.len(),
{
    let keep = |e: RawEntryView| shown(e, config);
    let kept = entries.filter_map(keep);
    let front = entries.drop_last().filter_map(keep);
    if p == entries.len() - 1 {
        assert(kept == front + seq![shown(entries[p], config)->0]);
        assert(kept[front.len() as int] == shown(entries[p], config)->0);
    } else {
        lemma_filter_map_keeps(entries.drop_last(), config, p);
        let e = shown(entries[p], config)->0;
        let k = choose|k: int| 0 <= k < front.len() && front[k] == e;
        assert(kept[k] == e);
    }
}

/// Hidden entries are left out of a listing unless they are asked for:
/// without the flag no listed name begins with a dot, and with it every
/// entry that can be classified is listed, hidden or not.
pub proof fn lemma_hidden_entries_excluded(entries: Seq<RawEntryView>, config: Config)
    ensures
        !config.show_hidden ==> forall|i: int|
            0 <= i < visible(entries, config).len() ==> !hidden_name(
                (#[trigger] visible(entries, config)[i]).raw,
            ),
        forall|j: int|
            0 <= j < entries.len() && format_view(#[trigger] entries[j]) is Some && (
            config.show_hidden || !hidden_name(entries[j].name->0)) ==> visible(
                entries,
                config,
            ).contains(format_view(entries[j])->0),
{
    let keep = |e: RawEntryView| shown(e, config);
    let sorted = in_order(entries);
    let listed = visible(entries, config);
    if !config.show_hidden {
        assert forall|i: int| 0 <= i < listed.len() implies !hidden_name(
            (#[trigger] listed[i]).raw,
        ) by {
            assert(listed.contains(listed[i]));
            sorted.lemma_filter_map_contains(keep, listed[i]);
        }
    }
    lemma_in_order_sorted(entries);
    assert forall|j: int|
        0 <= j < entries.len() && format_view(#[trigger] entries[j]) is Some && (
        config.show_hidden || !hidden_name(entries[j].name->0)) implies listed.contains(
        format_view(entries[j])->0,
    ) by {
        assert(sorted.contains(entries[j]));
        let p = choose|p: int| 0 <= p < sorted.len() && sorted[p] == entries[j];
        lemma_filter_map_keeps(sorted, config, p);
    }
}

/// Every entry of a listing is well formed.
pub proof fn lemma_visible_well_formed(entries: Seq<RawEntryView>, config: Config)
    ensures
        forall|i: int|
            0 <= i < visible(entries, config).len() ==> (#[trigger] visible(
                entries,
                config,
            )[i]).well_formed(),
{
    let keep = |e: RawEntryView| shown(e, config);
    let listed = visible(entries, config);
    assert forall|i: int| 0 <= i < listed.len() implies (#[trigger] listed[i]).well_formed() by {
        assert(listed.contains(listed[i]));
        in_order(entries).lemma_filter_map_contains(keep, listed[i]);
        let raw = choose|raw: RawEntryView|
            #[trigger] in_order(entries).contains(raw) && keep(raw) == Some(listed[i]);
        assert(listed[i] == formatted(
            listed[i].raw,
            category_of(raw.file_type->0, raw.mode->0),
        ));
    }
}

/// Putting one more entry into a run adds it to what is listed of the run
/// if it is shown, and leaves the count alone if it is not.
proof fn lemma_filter_map_insert_len(
    run: Seq<RawEntryView>,
    config: Config,
    p: int,
    entry: RawEntryView,
)
    requires
        0 <= p <= run.len(),
    ensures
        run.insert(p, entry).filter_map(|e: RawEntryView| shown(e, config)).len() == run.filter_map(
            |e: RawEntryView| shown(e, config),
        ).len() + if shown(entry, config) is Some {
            1int
        } else {
            0int
        },
    decreases run.len(),
{
    let keep = |e: RawEntryView| shown(e, config);
    let longer = run.insert(p, entry);
    if p == run.len() {
        assert(longer.drop_last() =~= run);
    } else {
        assert(longer.drop_last() =~= run.drop_last().insert(p, entry));
        assert(longer.last() == run.last());
        lemma_filter_map_insert_len(run.drop_last(), config, p, entry);
    }
}

proof fn lemma_prefix_count(entries: Seq<RawEntryView>, config: Config, n: nat)
    requires
        n <= entries.len(),
    ensures
        arranged_prefix(entries, raw_paths(entries), n).filter_map(
            |e: RawEntryView| shown(e, config),
        ).len() == entries.take(n as int).filter_map(|e: RawEntryView| shown(e, config)).len(),
    decreases n,
{
    let keep = |e: RawEntryView| shown(e, config);
    let paths = raw_paths(entries);
    if n == 0 {
        assert(arranged_prefix(entries, paths, 0) =~= Seq::<RawEntryView>::empty());
        assert(entries.take(0) =~= Seq::<RawEntryView>::empty());
    } else {
        let m = (n - 1) as nat;
        let p = insert_position(paths, sort_prefix(paths, m), paths[n - 1]);
        lemma_prefix_count(entries, config, m);
        lemma_arranged_prefix_step(entries, paths, n);
        lemma_filter_map_insert_len(arranged_prefix(entries, paths, m), config, p, entries[n - 1]);
        entries.lemma_filter_map_take_succ(keep, n - 1);
    }
}

/// A listing holds as many entries as there are raw entries that are
/// shown.
pub proof fn lemma_visible_count(entries: Seq<RawEntryView>, config: Config)
    ensures
        visible(entries, config).len() == entries.filter_map(
            |e: RawEntryView| shown(e, config),
        ).len(),
{
    lemma_prefix_count(entries, config, entries.len());
    assert(entries.take(entries.len() as int) =~= entries);
}

/// With one entry on each line, the listing has one line for each raw entry
/// that is shown; the lines stand in the order of the paths, and each holds
/// the display text of its entry and nothing else.
pub proof fn lemma_one_line_for_each_entry(
    entries: Seq<RawEntryView>,
    config: Config,
    terminal: nat,
)
    requires
        config.one_per_line,
    ensures
        ({
            let listed = visible(entries, config);
            let rows = listing_rows(listed, config, terminal);
            &&& rows.len() == entries.filter_map(|e: RawEntryView| shown(e, config)).len()
            &&& rows.len() == listed.len()
            &&& forall|i: int|
                0 <= i < rows.len() ==> (#[trigger] rows[i]) == seq![
                    display_text(listed[i], config),
                ]
        }),
{
    lemma_visible_count(entries, config);
    lemma_one_per_line(visible(entries, config), config, terminal);
}

/// The order in which the system hands out the entries of a directory does
/// not show in the listing: the same entries, given in another order, make
/// the same listing. No two entries of a directory share a path.
pub proof fn lemma_enumeration_order_is_immaterial(
    a: Seq<RawEntryView>,
    b: Seq<RawEntryView>,
    config: Config,
    terminal: nat,
)
    requires
        a.to_multiset() == b.to_multiset(),
        forall|i: int, j: int| 0 <= i < j < a.len() ==> a[i].path != a[j].path,
    ensures
        visible(a, config) == visible(b, config),
        listing_text(visible(a, config), config, terminal) == listing_text(
            visible(b, config),
            config,
            terminal,
        ),
{
    let path = |e: RawEntryView| e.path;
    lemma_arranged_unique(a, b, path);
    assert(raw_paths(a) =~= a.map_values(path));
    assert(raw_paths(b) =~= b.map_values(path));
}

} // verus!
