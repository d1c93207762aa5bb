//! Where the game and its user folder are.
use vstd::prelude::*;

use crate::json::{json_object, object_of, pairs_of, Json, JsonView};
use crate::text::{contains, occurs_at};

verus! {

/// How strongly a folder looks like the one that the game reads.
pub open spec fn rank_of(game_wrote: bool, mods: Option<usize>) -> u8 {
    if game_wrote {
        2
    } else if mods matches Some(n) && n > 0 {
        1
    } else {
        0
    }
}

/// How strongly a folder looks like the one that the game reads: 2 where the game
/// wrote there, 1 where it only holds mods, 0 where it holds nothing. `mods` is how
/// many entries its `mods` directory has, where that can be listed; one without any
/// does not count.
pub fn pz_user_rank(game_wrote: bool, mods: Option<usize>) -> (r: u8)
    ensures
        r == rank_of(game_wrote, mods),
{
    if game_wrote {
        return 2;
    }
    match mods {
        Some(n) => if n > 0 {
            1
        } else {
            0
        },
        None => 0,
    }
}

/// The latest of some points in time, or 0.
pub open spec fn latest(times: Seq<u64>) -> u64
    decreases times.len(),
{
    if times.len() == 0 {
        0
    } else {
        let r = latest(times.drop_last());
        if times.last() > r {
            times.last()
        } else {
            r
        }
    }
}

/// When the game last wrote into a folder: the latest time of what it wrote
/// there, or 0 where it wrote nothing.
pub fn pz_user_touched(times: &Vec<u64>) -> (r: u64)
    ensures
        r == latest(times@),
{
    let mut r: u64 = 0;
    let mut i: usize = 0;
    while i < times.len()
        invariant
            i <= times.len(),
            r == latest(times@.take(i as int)),
        decreases times.len() - i,
    {
        assert(times@.take(i + 1).drop_last() =~= times@.take(i as int));
        if times[i] > r {
            r = times[i];
        }
        i += 1;
    }
    assert(times@.take(times.len() as int) =~= times@);
    r
}

/// A folder that may be the user folder: where it is, how strongly it looks like
/// it, and when the game last wrote there.
pub struct Candidate<P> {
    pub path: P,
    pub rank: u8,
    pub touched: u64,
}

/// Whether `a` is to be preferred to `b`: by how strongly it looks like the
/// folder, then by when the game last wrote there.
pub open spec fn better<P>(a: Candidate<P>, b: Candidate<P>) -> bool {
    a.rank > b.rank || (a.rank == b.rank && a.touched > b.touched)
}

/// The position of the folder that is taken, if any: of those that look like it
/// at all the best one, and the first of equals.
pub open spec fn is_best<P>(candidates: Seq<Candidate<P>>, k: int) -> bool {
    &&& 0 <= k < candidates.len()
    &&& candidates[k].rank > 0
    &&& forall|j: int| 0 <= j < candidates.len() ==> !better(#[trigger] candidates[j], candidates[k])
    &&& forall|j: int| 0 <= j < k ==> better(candidates[k], #[trigger] candidates[j])
}

/// The user folder, if one looks like it.
pub fn detect_user_dir<P>(candidates: Vec<Candidate<P>>) -> (r: Option<P>)
    ensures
        match r {
            Some(p) => exists|k: int|
                is_best(candidates@, k) && p == (#[trigger] candidates@[k]).path,
            None => forall|j: int|
                0 <= j < candidates@.len() ==> (#[trigger] candidates@[j]).rank == 0,
        },
{
    let mut found: Option<usize> = None;
    let mut i: usize = 0;
    while i < candidates.len()
        invariant
            i <= candidates.len(),
            match found {
                Some(k) => k < i && is_best(candidates@.take(i as int), k as int),
                None => forall|j: int| 0 <= j < i ==> (#[trigger] candidates@[j]).rank == 0,
            },
        decreases candidates.len() - i,
    {
        let ghost t = candidates@.take(i as int);
        let ghost u = candidates@.take(i + 1);
        let ghost before = found;
        let take = match found {
            Some(k) => candidates[i].rank > candidates[k].rank || (candidates[i].rank
                == candidates[k].rank && candidates[i].touched > candidates[k].touched),
            None => candidates[i].rank > 0,
        };
        if take {
            found = Some(i);
        }
        proof {
            assert forall|j: int| 0 <= j < i implies #[trigger] u[j] == t[j] by {}
            assert(u[i as int] == candidates@[i as int]);
            match before {
                Some(k) => {
                    assert(t[k as int] == candidates@[k as int]);
                    if take {
                        assert forall|j: int| 0 <= j < i implies better(
                            u[i as int],
                            #[trigger] u[j],
                        ) by {
                            assert(!better(t[j], t[k as int]));
                        }
                    } else {
                        assert forall|j: int| 0 <= j < u.len() implies !better(
                            #[trigger] u[j],
                            u[k as int],
                        ) by {
                            if j < i {
                                assert(!better(t[j], t[k as int]));
                            }
                        }
                        assert forall|j: int| 0 <= j < k implies better(
                            u[k as int],
                            #[trigger] u[j],
                        ) by {
                            assert(better(t[k as int], t[j]));
                        }
                    }
                },
                None => {
                    if take {
                        assert forall|j: int| 0 <= j < i implies better(
                            u[i as int],
                            #[trigger] u[j],
                        ) by {
                            assert(candidates@[j].rank == 0);
                        }
                    }
                },
            }
        }
        i += 1;
    }
    assert(candidates@.take(candidates.len() as int) =~= candidates@);
    match found {
        Some(k) => {
            assert(is_best(candidates@, k as int));
            let ghost all = candidates@;
            let mut candidates = candidates;
            let best = candidates.remove(k);
            assert(best.path == all[k as int].path);
            Some(best.path)
        },
        None => None,
    }
}

/// A path that the environment gives, and how long it is.
pub struct Setting<P> {
    pub path: P,
    pub length: usize,
}

/// What the environment sets; a path without anything in it is not set.
pub open spec fn set_path<P>(given: Option<Setting<P>>) -> Option<P> {
    match given {
        Some(s) => if s.length > 0 {
            Some(s.path)
        } else {
            None
        },
        None => None,
    }
}

/// What the environment sets.
pub fn setting<P>(given: Option<Setting<P>>) -> (r: Option<P>)
    ensures
        r == set_path(given),
{
    match given {
        Some(s) => if s.length > 0 {
            Some(s.path)
        } else {
            None
        },
        None => None,
    }
}

/// A folder: one that was given, or a fixed one.
pub enum Root<P> {
    Given(P),
    Fixed(&'static str),
}

/// The user folder: at a path, or `Zomboid` under one.
pub enum UserDir<P> {
    At(P),
    Under(Root<P>),
}

pub struct Paths<P> {
    pub game: Root<P>,
    pub user: UserDir<P>,
}

/// What was given, else the fixed folder `or`.
pub open spec fn is_root<P>(r: Root<P>, given: Option<P>, or: Seq<char>) -> bool {
    match given {
        Some(p) => r == Root::Given(p),
        None => r matches Root::Fixed(f) && f@ == or,
    }
}

/// The game and its user folder are at `r`.
pub open spec fn are_found<P>(
    r: Paths<P>,
    game: Option<Setting<P>>,
    user: Option<Setting<P>>,
    detected: Option<P>,
    home: Option<Setting<P>>,
) -> bool {
    &&& is_root(r.game, set_path(game), "D:\\ProjectZomboid"@)
    &&& match (set_path(user), detected) {
        (Some(u), _) => r.user == UserDir::At(u),
        (None, Some(d)) => r.user == UserDir::At(d),
        (None, None) => r.user matches UserDir::Under(h) && is_root(h, set_path(home), "C:\\"@),
    }
}

/// Where the game and its user folder are. What is set counts first, then the
/// folder that looks like it, then the one in the home directory.
pub fn paths<P>(
    game: Option<Setting<P>>,
    user: Option<Setting<P>>,
    detected: Option<P>,
    home: Option<Setting<P>>,
) -> (r: Paths<P>)
    ensures
        are_found(r, game, user, detected, home),
{
    let game = match setting(game) {
        Some(g) => Root::Given(g),
        None => Root::Fixed("D:\\ProjectZomboid"),
    };
    let user = match setting(user) {
        Some(u) => UserDir::At(u),
        None => match detected {
            Some(d) => UserDir::At(d),
            None => UserDir::Under(
                match setting(home) {
                    Some(h) => Root::Given(h),
                    None => Root::Fixed("C:\\"),
                },
            ),
        },
    };
    Paths { game, user }
}

/// The file that starts the game.
pub open spec fn launch_file(nosteam: Option<bool>) -> Seq<char> {
    if nosteam == Some(true) {
        "PZ-D-nosteam.bat"@
    } else {
        "PZ-D.bat"@
    }
}

/// The file that starts the game.
pub fn launch(nosteam: Option<bool>) -> (r: &'static str)
    ensures
        r@ == launch_file(nosteam),
{
    let nosteam = match nosteam {
        Some(b) => b,
        None => false,
    };
    if nosteam {
        "PZ-D-nosteam.bat"
    } else {
        "PZ-D.bat"
    }
}

/// What came of starting the game.
pub enum Launched {
    /// The file is not there.
    Missing,
    /// It could not be run, for this reason.
    Failed(String),
    Started,
}

/// What is answered, where `name` was to be run in the folder `game`.
pub fn launch_reply(name: &str, game: &str, outcome: Launched) -> (r: Result<Json, String>)
    ensures
        match outcome {
            Launched::Missing => r matches Err(e) && e@ == "không thấy "@ + name@ + " trong "@
                + game@,
            Launched::Failed(why) => r matches Err(e) && e@ == "không chạy được "@ + name@ + ": "@
                + why@,
            Launched::Started => r matches Ok(reply) && reply.model() == object_of(
                seq![
                    ("ok"@, JsonView::Bool(true)),
                    ("log"@, JsonView::Str("đang mở game bằng "@ + name@)),
                ],
            ),
        },
{
    match outcome {
        Launched::Missing => Err(
            "không thấy ".to_string().concat(name).concat(" trong ").concat(game),
        ),
        Launched::Failed(why) => Err(
            "không chạy được ".to_string().concat(name).concat(": ").concat(why.as_str()),
        ),
        Launched::Started => {
            let line = "đang mở game bằng ".to_string().concat(name);
            let mut fields: Vec<(String, Json)> = Vec::new();
            fields.push(("ok".to_string(), Json::Bool(true)));
            fields.push(("log".to_string(), Json::Str(line)));
            proof {
                assert(pairs_of(fields@) =~= seq![
                    ("ok"@, JsonView::Bool(true)),
                    ("log"@, JsonView::Str("đang mở game bằng "@ + name@)),
                ]);
            }
            Ok(json_object(fields))
        },
    }
}

/// A folder into which the game wrote looks more like the one that it reads than one that
/// only holds mods, and that more than one that holds nothing.
pub proof fn law_what_the_game_wrote_counts_most(a: Option<usize>, b: Option<usize>, n: usize)
    requires
        n > 0,
    ensures
        rank_of(true, a) == rank_of(true, b),
        rank_of(true, a) > rank_of(false, Some(n)),
        rank_of(false, Some(n)) > rank_of(false, Some(0)),
        rank_of(false, Some(0)) == 0,
        rank_of(false, None) == 0,
{
}

/// The time at which the game last wrote somewhere is one of those at which it did, and
/// none of them is later.
pub proof fn law_the_latest_is_none_before(times: Seq<u64>)
    ensures
        forall|i: int| 0 <= i < times.len() ==> #[trigger] times[i] <= latest(times),
        times.len() > 0 ==> times.contains(latest(times)),
        times.len() == 0 ==> latest(times) == 0,
    decreases times.len(),
{
    if times.len() > 0 {
        let t = times.drop_last();
        law_the_latest_is_none_before(t);
        assert(times[times.len() - 1] == times.last());
        assert forall|i: int| 0 <= i < times.len() implies #[trigger] times[i] <= latest(times) by {
            if i < t.len() {
                assert(t[i] == times[i]);
            }
        }
        if t.len() > 0 && times.last() <= latest(t) {
            let i = choose|i: int| 0 <= i < t.len() && t[i] == latest(t);
            assert(times[i] == latest(times));
        }
    }
}

/// The folder that is taken looks like the one at all; none looks more like it; of those
/// that do as much the game wrote into none later; and of equals it is the first.
pub proof fn law_the_best_folder_is_taken<P>(candidates: Seq<Candidate<P>>, k: int, j: int)
    requires
        is_best(candidates, k),
        0 <= j < candidates.len(),
    ensures
        candidates[k].rank > 0,
        candidates[j].rank <= candidates[k].rank,
        candidates[j].rank == candidates[k].rank ==> candidates[j].touched <= candidates[k].touched,
        candidates[j].rank == candidates[k].rank && candidates[j].touched == candidates[k].touched
            ==> k <= j,
{
    assert(!better(candidates[j], candidates[k]));
    if j < k {
        assert(better(candidates[k], candidates[j]));
    }
}

/// What is set counts first, then what looks like the user folder, then the home
/// directory; a path without anything in it counts as none.
pub proof fn law_what_is_set_counts_first<P>(
    r: Paths<P>,
    game: Option<Setting<P>>,
    user: Option<Setting<P>>,
    detected: Option<P>,
    home: Option<Setting<P>>,
)
    requires
        are_found(r, game, user, detected, home),
    ensures
        (game matches Some(g) ==> (g.length > 0 ==> r.game == Root::Given(g.path))),
        !(game matches Some(g) && g.length > 0) ==> r.game is Fixed,
        (user matches Some(u) ==> (u.length > 0 ==> r.user == UserDir::At(u.path))),
        !(user matches Some(u) && u.length > 0) ==> match detected {
            Some(d) => r.user == UserDir::At(d),
            None => r.user matches UserDir::Under(h) && (home matches Some(x) && x.length > 0 ==> h
                == Root::Given(home->Some_0.path)) && (!(home matches Some(x) && x.length > 0) ==> h
                is Fixed),
        },
{
}

/// The game is started without Steam only where this is asked for.
pub proof fn law_steam_is_left_out_on_demand()
    ensures
        launch_file(None) == launch_file(Some(false)),
        launch_file(Some(true)) != launch_file(Some(false)),
        contains(launch_file(Some(true)), "nosteam"@),
        !contains(launch_file(None), "nosteam"@),
{
    reveal_strlit("PZ-D-nosteam.bat");
    reveal_strlit("PZ-D.bat");
    reveal_strlit("nosteam");
    let long = "PZ-D-nosteam.bat"@;
    let short = "PZ-D.bat"@;
    assert(long.subrange(5, 12) =~= "nosteam"@);
    assert(occurs_at(long, "nosteam"@, 5));
    assert forall|i: int| !occurs_at(short, "nosteam"@, i) by {
        if occurs_at(short, "nosteam"@, i) {
            assert(short.subrange(i, i + 7)[0] == short[i]);
        }
    }
    assert(long.len() != short.len());
}

} // verus!
