//! A plan as text, the way the command line prints it: the renames grouped by
//! the folder they happen in, then the subtitles that were left alone.
//!
//! The badge beside each rename and the reason beside each skipped subtitle
//! come in as text: a fuzzy score is shown as a rounded decimal, which is the
//! front-end's floating-point formatting.

use vstd::prelude::*;

use crate::paths::{
    file_name, display_path, parent_path, path_before, path_parent, path_precedes, paths_equal,
    relative_directory, same_path, shown_folder, shown_name, shown_path,
};
use crate::planning::{decimal, decimal_string, RenameOp, RenamePlan};
use crate::text::{concat, views};

verus! {

/// The folder a rename happens in: its source's parent, or the root.
pub open spec fn rename_folder(source: Seq<char>, root: Seq<char>) -> Seq<char> {
    match parent_path(source) {
        Some(parent) => parent,
        None => root,
    }
}

/// The folder of every rename of `plan`, in order.
pub open spec fn folders_of(plan: RenamePlan) -> Seq<Seq<char>> {
    plan.operations@.map_values(|op: RenameOp| rename_folder(op.source@, plan.root@))
}

/// Among the first `n` folders, those that open a group: no group opened
/// before holds the same path.
pub open spec fn group_leaders(folders: Seq<Seq<char>>, n: int) -> Seq<usize>
    decreases n,
{
    if n <= 0 {
        seq![]
    } else {
        let before = group_leaders(folders, n - 1);
        if exists|k: int| 0 <= k < before.len() && same_path(folders[before[k] as int], folders[n - 1]) {
            before
        } else {
            before.push((n - 1) as usize)
        }
    }
}

/// The group a folder belongs to: the first group, from the `k`th on, whose
/// folder is the same path.
pub open spec fn leader_of(folders: Seq<Seq<char>>, leaders: Seq<usize>, i: int, k: int) -> Option<usize>
    decreases leaders.len() - k,
{
    if k >= leaders.len() || k < 0 {
        None
    } else if same_path(folders[leaders[k] as int], folders[i]) {
        Some(leaders[k])
    } else {
        leader_of(folders, leaders, i, k + 1)
    }
}

/// Where the group of `item` goes among the groups in `order`: before the
/// first, from the `p`th on, whose folder it sorts before.
pub open spec fn folder_position(folders: Seq<Seq<char>>, order: Seq<usize>, item: usize, p: int) -> int
    decreases order.len() - p,
{
    if p >= order.len() || p < 0 {
        order.len() as int
    } else if path_before(folders[item as int], folders[order[p] as int]) {
        p
    } else {
        folder_position(folders, order, item, p + 1)
    }
}

/// The first `n` groups, sorted by their folders as paths; groups whose folders
/// tie keep the order they were opened in.
pub open spec fn groups_in_order(folders: Seq<Seq<char>>, leaders: Seq<usize>, n: int) -> Seq<usize>
    decreases n,
{
    if n <= 0 {
        seq![]
    } else {
        let before = groups_in_order(folders, leaders, n - 1);
        before.insert(folder_position(folders, before, leaders[n - 1], 0), leaders[n - 1])
    }
}

/// One listed rename.
pub open spec fn rename_line(op: RenameOp, badge: Seq<char>) -> Seq<char> {
    "- "@ + shown_name(op.source@) + "  ->  "@ + shown_name(op.destination@) + "  ("@ + badge + ")\n"@
}

/// The lines, among the first `n` renames, of the group opened by `leader`.
pub open spec fn group_lines(plan: RenamePlan, badges: Seq<Seq<char>>, leaders: Seq<usize>, leader: usize, n: int) -> Seq<char>
    decreases n,
{
    if n <= 0 {
        seq![]
    } else {
        let before = group_lines(plan, badges, leaders, leader, n - 1);
        if leader_of(folders_of(plan), leaders, n - 1, 0) == Some(leader) {
            before + rename_line(plan.operations@[n - 1], badges[n - 1])
        } else {
            before
        }
    }
}

/// A group: its folder, then its renames.
pub open spec fn group_text(plan: RenamePlan, badges: Seq<Seq<char>>, leaders: Seq<usize>, leader: usize) -> Seq<char> {
    "Directory: "@ + shown_folder(folders_of(plan)[leader as int], plan.root@) + "\n"@ + group_lines(
        plan,
        badges,
        leaders,
        leader,
        plan.operations@.len() as int,
    )
}

/// The first `k` groups of `order`.
pub open spec fn groups_text(plan: RenamePlan, badges: Seq<Seq<char>>, leaders: Seq<usize>, order: Seq<usize>, k: int) -> Seq<char>
    decreases k,
{
    if k <= 0 {
        seq![]
    } else {
        groups_text(plan, badges, leaders, order, k - 1) + group_text(plan, badges, leaders, order[k - 1])
    }
}

/// The first `k` skipped subtitles, one line each.
pub open spec fn skipped_lines(plan: RenamePlan, labels: Seq<Seq<char>>, k: int) -> Seq<char>
    decreases k,
{
    if k <= 0 {
        seq![]
    } else {
        skipped_lines(plan, labels, k - 1) + "- "@ + shown_path(plan.skipped@[k - 1].path@, plan.root@) + ": "@ + labels[k - 1] + "\n"@
    }
}

/// The whole listing, with `badges[i]` beside the `i`th rename and `labels[i]`
/// beside the `i`th skipped subtitle.
pub open spec fn plan_text(plan: RenamePlan, badges: Seq<Seq<char>>, labels: Seq<Seq<char>>) -> Seq<char> {
    let n = plan.operations@.len() as int;
    let leaders = group_leaders(folders_of(plan), n);
    let order = groups_in_order(folders_of(plan), leaders, leaders.len() as int);
    let renames = if n == 0 {
        "No renames planned.\n"@
    } else {
        groups_text(plan, badges, leaders, order, order.len() as int)
    };
    let skipped = plan.skipped@.len();
    if skipped == 0 {
        renames
    } else {
        renames + "\nSkipped "@ + decimal(skipped) + ":\n"@ + skipped_lines(plan, labels, skipped as int)
    }
}

proof fn lemma_group_leaders(folders: Seq<Seq<char>>, n: int)
    requires
        0 <= n <= folders.len(),
    ensures
        group_leaders(folders, n).len() <= n,
        forall|k: int| 0 <= k < group_leaders(folders, n).len() ==> #[trigger] group_leaders(folders, n)[k] < n,
    decreases n,
{
    if n > 0 {
        lemma_group_leaders(folders, n - 1);
    }
}

proof fn lemma_folder_position(folders: Seq<Seq<char>>, order: Seq<usize>, item: usize, p: int)
    requires
        0 <= p <= order.len(),
    ensures
        p <= folder_position(folders, order, item, p) <= order.len(),
    decreases order.len() - p,
{
    if p < order.len() && !path_before(folders[item as int], folders[order[p] as int]) {
        lemma_folder_position(folders, order, item, p + 1);
    }
}

proof fn lemma_groups_in_order(folders: Seq<Seq<char>>, leaders: Seq<usize>, n: int)
    requires
        0 <= n <= leaders.len(),
    ensures
        groups_in_order(folders, leaders, n).len() == n,
        forall|p: int| 0 <= p < n ==> exists|k: int| 0 <= k < n && #[trigger] groups_in_order(folders, leaders, n)[p] == leaders[k],
    decreases n,
{
    if n > 0 {
        lemma_groups_in_order(folders, leaders, n - 1);
        let before = groups_in_order(folders, leaders, n - 1);
        lemma_folder_position(folders, before, leaders[n - 1], 0);
        let q = folder_position(folders, before, leaders[n - 1], 0);
        let after = groups_in_order(folders, leaders, n);
        assert forall|p: int| 0 <= p < n implies exists|k: int| 0 <= k < n && #[trigger] after[p] == leaders[k] by {
            if p < q {
                assert(after[p] == before[p]);
                let k = choose|k: int| 0 <= k < n - 1 && before[p] == leaders[k];
                assert(after[p] == leaders[k]);
            } else if p == q {
                assert(after[p] == leaders[n - 1]);
            } else {
                assert(after[p] == before[p - 1]);
                let k = choose|k: int| 0 <= k < n - 1 && before[p - 1] == leaders[k];
                assert(after[p] == leaders[k]);
            }
        }
    }
}

/// The folder of each rename of `plan`.
fn rename_folders(plan: &RenamePlan) -> (r: Vec<String>)
    ensures
        views(r@) == folders_of(*plan),
{
    let mut folders: Vec<String> = Vec::new();
    let mut i: usize = 0;
    while i < plan.operations.len()
        invariant
            i <= plan.operations@.len(),
            views(folders@) == folders_of(*plan).take(i as int),
        decreases plan.operations.len() - i,
    {
        let folder = match path_parent(plan.operations[i].source.as_str()) {
            Some(parent) => parent,
            None => plan.root.clone(),
        };
        assert(folder@ == rename_folder(plan.operations@[i as int].source@, plan.root@));
        let ghost before = folders@;
        folders.push(folder);
        assert(views(folders@) =~= views(before).push(folders@[i as int]@));
        i += 1;
        assert(views(folders@) =~= folders_of(*plan).take(i as int));
    }
    assert(folders_of(*plan).take(i as int) =~= folders_of(*plan));
    folders
}

/// The renames that open a group.
fn leaders_of(folders: &Vec<String>) -> (r: Vec<usize>)
    ensures
        r@ == group_leaders(views(folders@), folders@.len() as int),
{
    let ghost names = views(folders@);
    let mut leaders: Vec<usize> = Vec::new();
    let mut i: usize = 0;
    while i < folders.len()
        invariant
            i <= folders@.len(),
            names == views(folders@),
            leaders@ == group_leaders(names, i as int),
        decreases folders.len() - i,
    {
        proof {
            lemma_group_leaders(names, i as int);
        }
        let mut k: usize = 0;
        let mut found = false;
        while k < leaders.len()
            invariant
                k <= leaders@.len(),
                i < folders@.len(),
                names == views(folders@),
                leaders@ == group_leaders(names, i as int),
                forall|m: int| 0 <= m < leaders@.len() ==> #[trigger] leaders@[m] < i,
                found <==> exists|m: int| 0 <= m < k && same_path(names[leaders@[m] as int], names[i as int]),
            decreases leaders.len() - k,
        {
            if paths_equal(folders[leaders[k]].as_str(), folders[i].as_str()) {
                found = true;
            }
            k += 1;
        }
        if !found {
            leaders.push(i);
        }
        i += 1;
    }
    leaders
}

/// The group of the `i`th rename.
fn group_of(folders: &Vec<String>, leaders: &Vec<usize>, i: usize) -> (r: Option<usize>)
    requires
        i < folders@.len(),
        forall|m: int| 0 <= m < leaders@.len() ==> #[trigger] leaders@[m] < folders@.len(),
    ensures
        r == leader_of(views(folders@), leaders@, i as int, 0),
{
    let mut k: usize = 0;
    while k < leaders.len()
        invariant
            k <= leaders@.len(),
            i < folders@.len(),
            forall|m: int| 0 <= m < leaders@.len() ==> #[trigger] leaders@[m] < folders@.len(),
            leader_of(views(folders@), leaders@, i as int, 0) == leader_of(views(folders@), leaders@, i as int, k as int),
        decreases leaders.len() - k,
    {
        if paths_equal(folders[leaders[k]].as_str(), folders[i].as_str()) {
            return Some(leaders[k]);
        }
        k += 1;
    }
    None
}

/// The groups sorted by their folders.
fn sorted_groups(folders: &Vec<String>, leaders: &Vec<usize>) -> (r: Vec<usize>)
    requires
        forall|m: int| 0 <= m < leaders@.len() ==> #[trigger] leaders@[m] < folders@.len(),
    ensures
        r@ == groups_in_order(views(folders@), leaders@, leaders@.len() as int),
{
    let ghost names = views(folders@);
    let mut order: Vec<usize> = Vec::new();
    let mut n: usize = 0;
    while n < leaders.len()
        invariant
            n <= leaders@.len(),
            names == views(folders@),
            forall|m: int| 0 <= m < leaders@.len() ==> #[trigger] leaders@[m] < folders@.len(),
            order@ == groups_in_order(names, leaders@, n as int),
        decreases leaders.len() - n,
    {
        proof {
            lemma_groups_in_order(names, leaders@, n as int);
        }
        let item = leaders[n];
        let mut p: usize = 0;
        while p < order.len() && !path_precedes(folders[item].as_str(), folders[order[p]].as_str())
            invariant
                p <= order@.len(),
                n < leaders@.len(),
                item == leaders@[n as int],
                item < folders@.len(),
                names == views(folders@),
                order@ == groups_in_order(names, leaders@, n as int),
                forall|q: int| 0 <= q < order@.len() ==> (#[trigger] order@[q]) < folders@.len(),
                folder_position(names, order@, item, 0) == folder_position(names, order@, item, p as int),
            decreases order.len() - p,
        {
            p += 1;
        }
        order.insert(p, item);
        n += 1;
    }
    order
}

/// Render a plan as text, grouped by the directory each rename happens in,
/// with `badges[i]` beside the `i`th rename and `labels[i]` beside the `i`th
/// skipped subtitle.
pub fn format_plan(plan: &RenamePlan, badges: &Vec<String>, labels: &Vec<String>) -> (r: String)
    requires
        badges@.len() == plan.operations@.len(),
        labels@.len() == plan.skipped@.len(),
    ensures
        r@ == plan_text(*plan, views(badges@), views(labels@)),
{
    let folders = rename_folders(plan);
    assert(views(folders@).len() == folders@.len());
    let leaders = leaders_of(&folders);
    proof {
        lemma_group_leaders(views(folders@), folders@.len() as int);
    }
    let order = sorted_groups(&folders, &leaders);
    proof {
        lemma_groups_in_order(views(folders@), leaders@, leaders@.len() as int);
    }
    let n = plan.operations.len();
    let ghost badge_text = views(badges@);
    let ghost label_text = views(labels@);
    let mut out = if n == 0 {
        "No renames planned.\n".to_owned()
    } else {
        String::new()
    };
    let ghost start = out@;
    let mut g: usize = 0;
    while g < order.len()
        invariant
            g <= order@.len(),
            n == plan.operations@.len(),
            badges@.len() == n,
            badge_text == views(badges@),
            views(folders@) == folders_of(*plan),
            folders@.len() == n,
            leaders@ == group_leaders(folders_of(*plan), n as int),
            order@ == groups_in_order(folders_of(*plan), leaders@, leaders@.len() as int),
            order@.len() == leaders@.len(),
            forall|m: int| 0 <= m < leaders@.len() ==> #[trigger] leaders@[m] < n,
            forall|p: int| 0 <= p < order@.len() ==> (#[trigger] order@[p]) < n,
            out@ == start + groups_text(*plan, badge_text, leaders@, order@, g as int),
        decreases order.len() - g,
    {
        let leader = order[g];
        assert(folders@[leader as int]@ == folders_of(*plan)[leader as int]);
        let label = relative_directory(folders[leader].as_str(), plan.root.as_str());
        let heading = concat("Directory: ", label.as_str());
        let ghost before = out@;
        out = concat(out.as_str(), heading.as_str());
        out = concat(out.as_str(), "\n");
        let ghost head = "Directory: "@ + shown_folder(folders_of(*plan)[leader as int], plan.root@) + "\n"@;
        assert(out@ =~= before + head);
        let mut i: usize = 0;
        while i < n
            invariant
                i <= n,
                n == plan.operations@.len(),
                badges@.len() == n,
                badge_text == views(badges@),
                views(folders@) == folders_of(*plan),
                folders@.len() == n,
                forall|m: int| 0 <= m < leaders@.len() ==> #[trigger] leaders@[m] < n,
                out@ == before + head + group_lines(*plan, badge_text, leaders@, leader, i as int),
            decreases n - i,
        {
            let ghost previous = out@;
            if group_of(&folders, &leaders, i) == Some(leader) {
                let op = &plan.operations[i];
                let source = file_name(op.source.as_str());
                let destination = file_name(op.destination.as_str());
                out = concat(out.as_str(), "- ");
                out = concat(out.as_str(), source.as_str());
                out = concat(out.as_str(), "  ->  ");
                out = concat(out.as_str(), destination.as_str());
                out = concat(out.as_str(), "  (");
                out = concat(out.as_str(), badges[i].as_str());
                out = concat(out.as_str(), ")\n");
                assert(out@ =~= previous + rename_line(plan.operations@[i as int], badge_text[i as int]));
            }
            i += 1;
        }
        g += 1;
        assert(out@ =~= start + groups_text(*plan, badge_text, leaders@, order@, g as int));
    }
    let count = plan.skipped.len();
    if count > 0 {
        let number = decimal_string(count);
        out = concat(out.as_str(), "\nSkipped ");
        out = concat(out.as_str(), number.as_str());
        out = concat(out.as_str(), ":\n");
        let ghost heading = out@;
        let mut k: usize = 0;
        while k < count
            invariant
                k <= count == plan.skipped@.len(),
                labels@.len() == count,
                label_text == views(labels@),
                out@ == heading + skipped_lines(*plan, label_text, k as int),
            decreases count - k,
        {
            let ghost previous = out@;
            let place = display_path(plan.skipped[k].path.as_str(), plan.root.as_str());
            out = concat(out.as_str(), "- ");
            out = concat(out.as_str(), place.as_str());
            out = concat(out.as_str(), ": ");
            out = concat(out.as_str(), labels[k].as_str());
            out = concat(out.as_str(), "\n");
            k += 1;
            assert(out@ =~= heading + skipped_lines(*plan, label_text, k as int));
        }
    }
    proof {
        reveal_strlit("No renames planned.\n");
        reveal_strlit("");
    }
    out
}

} // verus!
