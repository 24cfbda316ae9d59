//! The turn-by-turn gameplay around the maze: moving the selection,
//! confirming a step, scoring the words the walked characters complete,
//! and applying collected power-ups.

use vstd::prelude::*;

use crate::matcher::Matcher;
use crate::maze::coords_view;
use crate::maze::lemma_route_preserved;
use crate::maze::route_ok;
use crate::maze::GenError;
use crate::maze::Maze;
use crate::maze::PowerUP;
use crate::maze::VisibleArea;
use crate::rng::random_below;
use crate::settings::copy_words;
use crate::settings::Settings;

verus! {

/// A player's command, as the interface hands it to the game.
#[derive(Debug, Clone, Copy, PartialEq, Eq)]
pub enum GameAction {
    GoUp,
    GoDown,
    GoLeft,
    GoRight,
    Confirm,
}

/// The whole gameplay state: the maze, the live matcher scoring the
/// characters the player walks over, the visible window, and the
/// score and step bookkeeping.
pub struct Labyrinth {
    pub maze: Maze,
    pub words: Vec<String>,
    pub player_state: Vec<(usize, PowerUP)>,
    pub matcher: Matcher,
    pub visible: VisibleArea,
    pub score: usize,
    pub steps: usize,
    /// the power-up whose colors the notification borrows, and its text
    pub notification: (Option<PowerUP>, String),
    pub notif_backup: String,
    pub lost: bool,
    pub won: bool,
}

/// One turn's burn-down of the running effects: each entry loses a life
/// and entries already spent drop off.
pub open spec fn ticked(ps: Seq<(usize, PowerUP)>) -> Seq<(usize, PowerUP)>
    decreases ps.len(),
{
    if ps.len() == 0 {
        Seq::empty()
    } else {
        let rest = ticked(ps.drop_last());
        if ps.last().0 > 0 {
            rest.push(((((ps.last().0 - 1) as usize), ps.last().1)))
        } else {
            rest
        }
    }
}

proof fn lemma_count_matching_nonneg(ps: Seq<(usize, PowerUP)>, power: PowerUP)
    ensures
        0 <= count_matching(ps, power) <= ps.len(),
    decreases ps.len(),
{
    if ps.len() > 0 {
        lemma_count_matching_nonneg(ps.drop_last(), power);
    }
}

/// What one word is worth: the saturating score formula.
pub open spec fn word_score(w: Seq<char>) -> int {
    let l = (w.len() + 2) as int;
    if l * (l / 3) > usize::MAX as int {
        usize::MAX as int
    } else {
        l * (l / 3)
    }
}

/// The words the reported indices name, in order; an index past the end
/// of the list is passed over.
pub open spec fn picked_words(words: Seq<String>, inds: Seq<usize>) -> Seq<Seq<char>>
    decreases inds.len(),
{
    if inds.len() == 0 {
        Seq::empty()
    } else {
        let rest = picked_words(words, inds.drop_last());
        if (inds.last() as int) < words.len() {
            rest.push(words[inds.last() as int]@)
        } else {
            rest
        }
    }
}

/// The saturating sum of the words' scores.
pub open spec fn sat_gain(ws: Seq<Seq<char>>) -> int
    decreases ws.len(),
{
    if ws.len() == 0 {
        0
    } else {
        let rest = sat_gain(ws.drop_last());
        if rest <= usize::MAX as int - word_score(ws.last()) {
            rest + word_score(ws.last())
        } else {
            usize::MAX as int
        }
    }
}

/// Eight to the given power, saturating within a machine word.
pub open spec fn sat_pow8(n: int) -> int
    decreases n,
{
    if n <= 0 {
        1
    } else {
        let rest = sat_pow8(n - 1);
        if rest <= (u64::MAX as int) / 8 {
            rest * 8
        } else {
            u64::MAX as int
        }
    }
}

/// How many running effects are the given power-up.
pub open spec fn count_matching(ps: Seq<(usize, PowerUP)>, power: PowerUP) -> int
    decreases ps.len(),
{
    if ps.len() == 0 {
        0
    } else {
        count_matching(ps.drop_last(), power) + (if ps.last().1 == power {
            1int
        } else {
            0int
        })
    }
}

impl Labyrinth {
    /// The maze and the matcher are well formed and the visible window is
    /// a square of at least three cells a side with the selection inside.
    pub open spec fn wf(self) -> bool {
        &&& self.maze.wf()
        &&& self.matcher.wf()
        &&& self.visible.cells@.len() >= 3
        &&& forall|i: int|
            0 <= i < self.visible.cells@.len() ==> (#[trigger] self.visible.cells@[i])@.len()
                == self.visible.cells@.len()
        &&& (self.visible.selected.0 as int) < self.visible.cells@.len()
        &&& (self.visible.selected.1 as int) < self.visible.cells@.len()
    }

    /// Builds a fresh game: generates the maze, builds the matcher over
    /// the same word list, and opens the window around the start cell.
    pub fn new(settings: Settings) -> (r: Result<Labyrinth, GenError>)
        requires
            settings.height + settings.width <= usize::MAX,
        ensures
            r is Ok ==> ({
                let g = r->Ok_0;
                &&& g.wf()
                &&& crate::maze::well_generated(g.maze, settings)
                &&& g.score == 0
                &&& g.steps == settings.steps
                &&& !g.won
                &&& !g.lost
                &&& g.words == settings.words
                &&& g.matcher.pats@ == settings.words.deep_view()
                &&& g.matcher.current == 0usize
                &&& g.matcher.fed@ == Seq::<char>::empty()
                &&& g.player_state@.len() == 0
                &&& g.visible.cells@.len() == 7
                &&& g.visible.selected == ((3usize, 3usize))
                &&& g.visible.thread@.len() == 0
                &&& forall|gi: int, gj: int|
                    #![trigger g.visible.cells@[gi]@[gj]]
                    0 <= gi < 7 && 0 <= gj < 7 ==> g.visible.cells@[gi]@[gj]
                        == crate::maze::window_cell(
                        g.maze,
                        g.maze.player_location.0 as int,
                        g.maze.player_location.1 as int,
                        3,
                        gi,
                        gj,
                    )
            }),
            r is Err && r->Err_0 == GenError::InvalidConfig <==> (settings.height == 0
                || settings.width == 0 || settings.min_path_div == 0),
    {
        let maze = match Maze::new(&settings) {
            Ok(m) => m,
            Err(e) => {
                return Err(e);
            },
        };
        let matcher = Matcher::new(copy_words(&settings.words));
        let visible = maze.visible_area(3);
        Ok(
            Labyrinth {
                maze,
                words: settings.words,
                player_state: Vec::new(),
                matcher,
                visible,
                score: 0,
                steps: settings.steps,
                notification: (None, String::new()),
                notif_backup: "Welcome to the maze:\n use <wasd> or arrows to move and <enter> to confirm move.".to_owned(),
                lost: false,
                won: false,
            },
        )
    }

    /// The score one found word is worth, by its length.
    pub fn score(s: &str) -> (r: usize)
        ensures
            ({
                let l = (s@.len() + 2) as int;
                r as int == (if l * (l / 3) > usize::MAX as int {
                    usize::MAX as int
                } else {
                    l * (l / 3)
                })
            }),
    {
        let l: u128 = s.unicode_len() as u128 + 2;
        proof {
            assert(l <= 0x1_0000_0000_0000_0001u128);
            assert(l * (l / 3) <= u128::MAX) by (nonlinear_arith)
                requires
                    0 <= l <= 0x1_0000_0000_0000_0001u128,
            ;
        }
        let p: u128 = l * (l / 3);
        if p > usize::MAX as u128 {
            usize::MAX
        } else {
            p as usize
        }
    }

    /// How many of the player's running effects are the given power-up.
    /// The count is capped so that widening the sight radius by it can
    /// never overflow.
    fn count_power(&self, power: PowerUP) -> (r: usize)
        ensures
            r <= 900,
            r as int == (if count_matching(self.player_state@, power) <= 900 {
                count_matching(self.player_state@, power)
            } else {
                900int
            }),
    {
        let mut c: usize = 0;
        let mut k: usize = 0;
        while k < self.player_state.len()
            invariant
                k <= self.player_state@.len(),
                c <= 900,
                c as int == (if count_matching(self.player_state@.take(k as int), power) <= 900 {
                    count_matching(self.player_state@.take(k as int), power)
                } else {
                    900int
                }),
            decreases self.player_state@.len() - k,
        {
            proof {
                assert(self.player_state@.take(k as int + 1).drop_last()
                    =~= self.player_state@.take(k as int));
                assert(self.player_state@.take(k as int + 1).last() == self.player_state@[
                    k as int
                ]);
                lemma_count_matching_nonneg(self.player_state@.take(k as int), power);
            }
            if c < 900 {
                let is_it = match (self.player_state[k].1, power) {
                    (PowerUP::AriadneThread, PowerUP::AriadneThread) => true,
                    (PowerUP::HeliosTorch, PowerUP::HeliosTorch) => true,
                    (PowerUP::OdinDraupnir, PowerUP::OdinDraupnir) => true,
                    (PowerUP::ThorMjolnir, PowerUP::ThorMjolnir) => true,
                    (PowerUP::BifrostBridge, PowerUP::BifrostBridge) => true,
                    _ => false,
                };
                if is_it {
                    c = c + 1;
                }
            }
            k = k + 1;
        }
        proof {
            assert(self.player_state@.take(self.player_state@.len() as int)
                =~= self.player_state@);
        }
        c
    }

    /// Rebuilds the visible window around the player's position, widened
    /// by the torches in effect, keeping the guidance thread.
    pub fn update_visual(&mut self)
        requires
            old(self).wf(),
        ensures
            final(self).wf(),
            final(self).maze == old(self).maze,
            final(self).steps == old(self).steps,
            final(self).score == old(self).score,
            final(self).visible.thread == old(self).visible.thread,
            final(self).words == old(self).words,
            final(self).player_state == old(self).player_state,
            final(self).matcher == old(self).matcher,
            final(self).won == old(self).won,
            final(self).lost == old(self).lost,
            ({
                let dim = final(self).visible.cells@.len() as int;
                let x = old(self).maze.player_location.0 as int;
                let y = old(self).maze.player_location.1 as int;
                let torches = count_matching(old(self).player_state@, PowerUP::HeliosTorch);
                &&& dim == 2 * (3 + (if torches <= 900 {
                    torches
                } else {
                    900int
                })) + 1
                &&& 7 <= dim
                &&& dim % 2 == 1
                &&& (final(self).visible.selected.0 as int) == dim / 2
                &&& (final(self).visible.selected.1 as int) == dim / 2
                &&& (final(self).visible.offset.0 as int, final(self).visible.offset.1 as int)
                    == ((x - dim / 2, y - dim / 2))
                &&& forall|gi: int, gj: int|
                    #![trigger final(self).visible.cells@[gi]@[gj]]
                    0 <= gi < dim && 0 <= gj < dim ==> final(self).visible.cells@[gi]@[gj]
                        == crate::maze::window_cell(old(self).maze, x, y, dim / 2, gi, gj)
            }),
    {
        let sight_radius = 3 + self.count_power(PowerUP::HeliosTorch);
        let v = self.maze.visible_area(sight_radius);
        self.visible.cells = v.cells;
        self.visible.selected = v.selected;
        self.visible.offset = v.offset;
    }

    /// Shows the description of the collectible under the selection, or
    /// falls back to the standing message.
    pub fn show_selected(&mut self)
        requires
            old(self).wf(),
        ensures
            final(self).wf(),
            final(self).maze == old(self).maze,
            final(self).visible == old(self).visible,
            final(self).steps == old(self).steps,
            final(self).score == old(self).score,
            ({
                let sel = old(self).visible.cells@[old(self).visible.selected.0 as int]@[old(self).visible.selected.1 as int];
                &&& final(self).notification.0 == (if sel.visited {
                    None::<PowerUP>
                } else {
                    sel.power_up
                })
                &&& (final(self).notification.0 is None ==> final(self).notification.1@ == old(self).notif_backup@)
            }),
    {
        match self.visible.get_powerup() {
            Some(power) => {
                self.notification = (Some(power), power.description().to_owned());
            },
            None => {
                self.notification = (None, self.notif_backup.clone());
            },
        }
    }

    /// Clears the wall flag of one cell.
    fn clear_wall(&mut self, i: usize, j: usize)
        requires
            old(self).maze.wf(),
            (i as int) < old(self).maze.height,
            (j as int) < old(self).maze.width,
        ensures
            final(self).maze.wf(),
            final(self).maze.height == old(self).maze.height,
            final(self).maze.width == old(self).maze.width,
            final(self).maze.player_location == old(self).maze.player_location,
            !final(self).maze.cell(i as int, j as int).wall,
            forall|i2: int, j2: int|
                #![trigger final(self).maze.cells@[i2]@[j2]]
                old(self).maze.in_bounds(i2, j2) ==> {
                    &&& final(self).maze.cells@[i2]@[j2].value == old(self).maze.cells@[i2]@[j2].value
                    &&& final(self).maze.cells@[i2]@[j2].exit == old(self).maze.cells@[i2]@[j2].exit
                    &&& final(self).maze.cells@[i2]@[j2].visited == old(self).maze.cells@[i2]@[j2].visited
                    &&& final(self).maze.cells@[i2]@[j2].power_up == old(self).maze.cells@[i2]@[j2].power_up
                    &&& ((i2, j2) != ((i as int, j as int)) ==> final(self).maze.cells@[i2]@[j2].wall
                        == old(self).maze.cells@[i2]@[j2].wall)
                },
            final(self).words == old(self).words,
            final(self).player_state == old(self).player_state,
            final(self).matcher == old(self).matcher,
            final(self).visible == old(self).visible,
            final(self).score == old(self).score,
            final(self).steps == old(self).steps,
            final(self).notification == old(self).notification,
            final(self).notif_backup == old(self).notif_backup,
            final(self).lost == old(self).lost,
            final(self).won == old(self).won,
    {
        let ghost mc = self.maze.cells@;
        self.maze.cells[i][j].wall = false;
        proof {
            assert(forall|i2: int|
                0 <= i2 < mc.len() && i2 != i as int ==> (#[trigger] self.maze.cells@[i2])
                    == mc[i2]);
        }
    }

    /// Raises the visited flag of one cell.
    fn mark_visited(&mut self, i: usize, j: usize)
        requires
            old(self).maze.wf(),
            (i as int) < old(self).maze.height,
            (j as int) < old(self).maze.width,
        ensures
            final(self).maze.wf(),
            final(self).maze.height == old(self).maze.height,
            final(self).maze.width == old(self).maze.width,
            final(self).maze.player_location == old(self).maze.player_location,
            final(self).maze.cell(i as int, j as int).visited,
            forall|i2: int, j2: int|
                #![trigger final(self).maze.cells@[i2]@[j2]]
                old(self).maze.in_bounds(i2, j2) ==> {
                    &&& final(self).maze.cells@[i2]@[j2].value == old(self).maze.cells@[i2]@[j2].value
                    &&& final(self).maze.cells@[i2]@[j2].exit == old(self).maze.cells@[i2]@[j2].exit
                    &&& final(self).maze.cells@[i2]@[j2].wall == old(self).maze.cells@[i2]@[j2].wall
                    &&& final(self).maze.cells@[i2]@[j2].power_up == old(self).maze.cells@[i2]@[j2].power_up
                    &&& ((i2, j2) != ((i as int, j as int)) ==> final(self).maze.cells@[i2]@[j2].visited
                        == old(self).maze.cells@[i2]@[j2].visited)
                },
            final(self).words == old(self).words,
            final(self).player_state == old(self).player_state,
            final(self).matcher == old(self).matcher,
            final(self).visible == old(self).visible,
            final(self).score == old(self).score,
            final(self).steps == old(self).steps,
            final(self).notification == old(self).notification,
            final(self).notif_backup == old(self).notif_backup,
            final(self).lost == old(self).lost,
            final(self).won == old(self).won,
    {
        let ghost mc = self.maze.cells@;
        self.maze.cells[i][j].visited = true;
        proof {
            assert(forall|i2: int|
                0 <= i2 < mc.len() && i2 != i as int ==> (#[trigger] self.maze.cells@[i2])
                    == mc[i2]);
        }
    }

    /// Applies one collected power-up: the thread shows a route to the
    /// exit, the hammer clears nearby walls, the bridge teleports the
    /// player to a random reachable cell, and the rest linger as running
    /// effects for five turns.
    #[verifier::loop_isolation(false)]
    #[verifier::rlimit(100)]
    #[verifier::spinoff_prover]
    pub fn apply_power_up(&mut self, power: PowerUP)
        requires
            old(self).wf(),
        ensures
            final(self).wf(),
            final(self).score == old(self).score,
            final(self).steps == old(self).steps,
            final(self).won == old(self).won,
            final(self).lost == old(self).lost,
            final(self).words == old(self).words,
            final(self).matcher == old(self).matcher,
            final(self).maze.height == old(self).maze.height,
            final(self).maze.width == old(self).maze.width,
            power is HeliosTorch || power is OdinDraupnir ==> final(self).maze == old(self).maze
                && final(self).visible == old(self).visible
                && final(self).player_state@ == old(self).player_state@.push(((5usize, power))),
            power is AriadneThread ==> ({
                let player = (old(self).maze.player_location.0 as int,
                old(self).maze.player_location.1 as int);
                &&& final(self).maze == old(self).maze
                &&& final(self).player_state == old(self).player_state
                &&& final(self).visible.cells == old(self).visible.cells
                &&& final(self).visible.selected == old(self).visible.selected
                &&& final(self).visible.offset == old(self).visible.offset
                // the thread lays out one shortest route to the exit, and
                // is empty exactly when no route exists
                &&& ((forall|p: Seq<(int, int)>| !route_ok(old(self).maze, player, p))
                    ==> final(self).visible.thread@.len() == 0)
                &&& ((exists|p: Seq<(int, int)>| route_ok(old(self).maze, player, p))
                    ==> exists|p: Seq<(int, int)>|
                    {
                        &&& #[trigger] route_ok(old(self).maze, player, p)
                        &&& forall|p2: Seq<(int, int)>|
                            #[trigger] route_ok(old(self).maze, player, p2) ==> p2.len() >= p.len()
                        &&& final(self).visible.thread@.len() == p.len()
                        &&& forall|k: int|
                            0 <= k < p.len() ==> ((#[trigger] final(self).visible.thread@[k]).0
                                as int, final(self).visible.thread@[k].1 as int) == p[k]
                    })
            }),
            power is ThorMjolnir ==> ({
                let x = old(self).maze.player_location.0 as int;
                let y = old(self).maze.player_location.1 as int;
                &&& final(self).maze.player_location == old(self).maze.player_location
                &&& final(self).player_state == old(self).player_state
                &&& final(self).visible == old(self).visible
                &&& forall|i: int, j: int|
                    #![trigger final(self).maze.cells@[i]@[j]]
                    old(self).maze.in_bounds(i, j) ==> {
                        &&& final(self).maze.cells@[i]@[j].value == old(self).maze.cells@[i]@[j].value
                        &&& final(self).maze.cells@[i]@[j].exit == old(self).maze.cells@[i]@[j].exit
                        &&& final(self).maze.cells@[i]@[j].visited == old(self).maze.cells@[i]@[j].visited
                        &&& final(self).maze.cells@[i]@[j].power_up == old(self).maze.cells@[i]@[j].power_up
                        &&& (x - 3 <= i <= x + 3 && y - 3 <= j <= y + 3 ==> !final(self).maze.cells@[i]@[j].wall)
                        &&& (!(x - 3 <= i <= x + 3 && y - 3 <= j <= y + 3) ==> final(self).maze.cells@[i]@[j].wall
                            == old(self).maze.cells@[i]@[j].wall)
                    }
            }),
            power is BifrostBridge ==> (final(self).maze.player_location
                == old(self).maze.player_location || ({
                let q = (final(self).maze.player_location.0 as int,
                final(self).maze.player_location.1 as int);
                // the bridge lands on a fresh footing: a non-exit cell,
                // now visited and unwalled, with the exit still reachable
                &&& !final(self).maze.cell(q.0, q.1).exit
                &&& final(self).maze.cell(q.0, q.1).visited
                &&& !final(self).maze.cell(q.0, q.1).wall
                &&& exists|p: Seq<(int, int)>| #[trigger] route_ok(final(self).maze, q, p)
            })),
            power is BifrostBridge ==> ({
                &&& final(self).player_state == old(self).player_state
                &&& final(self).visible == old(self).visible
                &&& forall|i: int, j: int|
                    #![trigger final(self).maze.cells@[i]@[j]]
                    old(self).maze.in_bounds(i, j) ==> {
                        &&& final(self).maze.cells@[i]@[j].value == old(self).maze.cells@[i]@[j].value
                        &&& final(self).maze.cells@[i]@[j].exit == old(self).maze.cells@[i]@[j].exit
                        &&& final(self).maze.cells@[i]@[j].power_up == old(self).maze.cells@[i]@[j].power_up
                        &&& (old(self).maze.cells@[i]@[j].visited ==> final(self).maze.cells@[i]@[j].visited)
                        &&& (final(self).maze.cells@[i]@[j].wall ==> old(self).maze.cells@[i]@[j].wall)
                    }
            }),
    {
        match power {
            PowerUP::AriadneThread => {
                match self.maze.shortest_route() {
                    Some(path) => {
                        let mut thread: Vec<(i128, i128)> = Vec::new();
                        let mut k: usize = 0;
                        while k < path.len()
                            invariant
                                k <= path@.len(),
                                thread@.len() == k,
                                forall|t: int|
                                    0 <= t < k ==> ((#[trigger] thread@[t]).0 as int,
                                    thread@[t].1 as int) == ((path@[t].0 as int, path@[t].1
                                        as int)),
                            decreases path@.len() - k,
                        {
                            thread.push((path[k].0 as i128, path[k].1 as i128));
                            k = k + 1;
                        }
                        self.visible.thread = thread;
                        proof {
                            let player = (self.maze.player_location.0 as int,
                            self.maze.player_location.1 as int);
                            let p0 = coords_view(path@);
                            assert(route_ok(self.maze, player, p0));
                            assert(self.visible.thread@.len() == p0.len());
                            assert(forall|t: int|
                                0 <= t < p0.len() ==> ((#[trigger] self.visible.thread@[t]).0
                                    as int, self.visible.thread@[t].1 as int) == p0[t]);
                        }
                    },
                    None => {
                        self.visible.thread = Vec::new();
                    },
                }
            },
            PowerUP::ThorMjolnir => {
                let (x, y) = self.maze.player_location;
                let lo_i = if x > 3 {
                    x - 3
                } else {
                    0
                };
                let lo_j = if y > 3 {
                    y - 3
                } else {
                    0
                };
                let hi_i = if x <= usize::MAX - 3 {
                    x + 3
                } else {
                    usize::MAX
                };
                let hi_j = if y <= usize::MAX - 3 {
                    y + 3
                } else {
                    usize::MAX
                };
                let mut i = lo_i;
                while i < self.maze.height && i <= hi_i
                    invariant
                        self.wf(),
                        self.maze.height == old(self).maze.height,
                        self.maze.width == old(self).maze.width,
                        self.maze.player_location == old(self).maze.player_location,
                        self.words == old(self).words,
                        self.player_state == old(self).player_state,
                        self.matcher == old(self).matcher,
                        self.visible == old(self).visible,
                        self.score == old(self).score,
                        self.steps == old(self).steps,
                        self.lost == old(self).lost,
                        self.won == old(self).won,
                        lo_i <= i,
                        i as int <= hi_i as int + 1,
                        forall|i2: int, j2: int|
                            #![trigger self.maze.cells@[i2]@[j2]]
                            old(self).maze.in_bounds(i2, j2) ==> {
                                &&& self.maze.cells@[i2]@[j2].value == old(self).maze.cells@[i2]@[j2].value
                                &&& self.maze.cells@[i2]@[j2].exit == old(self).maze.cells@[i2]@[j2].exit
                                &&& self.maze.cells@[i2]@[j2].visited == old(self).maze.cells@[i2]@[j2].visited
                                &&& self.maze.cells@[i2]@[j2].power_up == old(self).maze.cells@[i2]@[j2].power_up
                                &&& (lo_i <= i2 < i && lo_j as int <= j2 <= hi_j as int
                                    ==> !self.maze.cells@[i2]@[j2].wall)
                                &&& (!(lo_i <= i2 < i && lo_j as int <= j2 <= hi_j as int)
                                    ==> self.maze.cells@[i2]@[j2].wall == old(self).maze.cells@[i2]@[j2].wall)
                            },
                    decreases self.maze.height - i,
                {
                    let mut j = lo_j;
                    while j < self.maze.width && j <= hi_j
                        invariant
                            self.wf(),
                            self.maze.height == old(self).maze.height,
                            self.maze.width == old(self).maze.width,
                            self.maze.player_location == old(self).maze.player_location,
                            self.words == old(self).words,
                            self.player_state == old(self).player_state,
                            self.matcher == old(self).matcher,
                            self.visible == old(self).visible,
                            self.score == old(self).score,
                            self.steps == old(self).steps,
                            self.lost == old(self).lost,
                            self.won == old(self).won,
                            (i as int) < self.maze.height,
                            lo_i <= i,
                            i <= hi_i,
                            lo_j <= j,
                            j as int <= hi_j as int + 1,
                            forall|i2: int, j2: int|
                                #![trigger self.maze.cells@[i2]@[j2]]
                                old(self).maze.in_bounds(i2, j2) ==> {
                                    &&& self.maze.cells@[i2]@[j2].value == old(self).maze.cells@[i2]@[j2].value
                                    &&& self.maze.cells@[i2]@[j2].exit == old(self).maze.cells@[i2]@[j2].exit
                                    &&& self.maze.cells@[i2]@[j2].visited == old(self).maze.cells@[i2]@[j2].visited
                                    &&& self.maze.cells@[i2]@[j2].power_up == old(self).maze.cells@[i2]@[j2].power_up
                                    &&& ((lo_i <= i2 < i && lo_j as int <= j2 <= hi_j as int) || (
                                    i2 == i as int && lo_j as int <= j2 < j)
                                        ==> !self.maze.cells@[i2]@[j2].wall)
                                    &&& (!((lo_i <= i2 < i && lo_j as int <= j2 <= hi_j as int) || (
                                    i2 == i as int && lo_j as int <= j2 < j))
                                        ==> self.maze.cells@[i2]@[j2].wall == old(self).maze.cells@[i2]@[j2].wall)
                                },
                        decreases self.maze.width - j,
                    {
                        self.clear_wall(i, j);
                        j = j + 1;
                    }
                    proof {
                        assert(j >= self.maze.width || j > hi_j);
                        assert forall|i2: int, j2: int|
                            old(self).maze.in_bounds(i2, j2) && lo_i <= i2 < i as int + 1 && lo_j
                            <= j2 <= hi_j as int implies !(
                        #[trigger] self.maze.cells@[i2]@[j2]).wall by {
                            if i2 == i as int {
                                assert(j2 < j);
                            }
                        }
                        assert forall|i2: int, j2: int|
                            old(self).maze.in_bounds(i2, j2) && !(lo_i <= i2 < i as int + 1
                                && lo_j <= j2 <= hi_j as int) implies (
                        #[trigger] self.maze.cells@[i2]@[j2]).wall == old(self).maze.cells@[i2]@[j2].wall by {
                            if i2 == i as int && lo_j <= j2 < j {
                                assert(j2 <= hi_j as int);
                                assert(false);
                            }
                        }
                    }
                    i = i + 1;
                }
                proof {
                    // the window in maze coordinates is exactly what the
                    // clamped bounds covered
                    let x2 = old(self).maze.player_location.0 as int;
                    let y2 = old(self).maze.player_location.1 as int;
                    assert forall|i2: int, j2: int|
                        old(self).maze.in_bounds(i2, j2) && x2 - 3 <= i2 <= x2 + 3 && y2 - 3 <= j2
                        <= y2 + 3 implies !(#[trigger] self.maze.cells@[i2]@[j2]).wall by {
                        assert(lo_i <= i2 < i && lo_j as int <= j2 <= hi_j as int);
                    }
                    assert forall|i2: int, j2: int|
                        old(self).maze.in_bounds(i2, j2) && !(x2 - 3 <= i2 <= x2 + 3 && y2 - 3
                            <= j2 <= y2 + 3) implies (#[trigger] self.maze.cells@[i2]@[j2]).wall
                        == old(self).maze.cells@[i2]@[j2].wall by {
                        if lo_i <= i2 < i && lo_j as int <= j2 <= hi_j as int {
                            assert(x2 - 3 <= i2 <= x2 + 3 && y2 - 3 <= j2 <= y2 + 3);
                            assert(false);
                        }
                    }
                }
            },
            PowerUP::BifrostBridge => {
                let keep = self.maze.player_location;
                let mut tries: usize = 0;
                let mut done = false;
                while tries < crate::maze::MAX_PLACEMENT_ATTEMPTS && !done
                    invariant
                        self.wf(),
                        tries <= crate::maze::MAX_PLACEMENT_ATTEMPTS,
                        self.maze.height == old(self).maze.height,
                        self.maze.width == old(self).maze.width,
                        self.words == old(self).words,
                        self.player_state == old(self).player_state,
                        self.matcher == old(self).matcher,
                        self.visible == old(self).visible,
                        self.score == old(self).score,
                        self.steps == old(self).steps,
                        self.notification == old(self).notification,
                        self.notif_backup == old(self).notif_backup,
                        self.lost == old(self).lost,
                        self.won == old(self).won,
                        keep == old(self).maze.player_location,
                        forall|i2: int, j2: int|
                            #![trigger self.maze.cells@[i2]@[j2]]
                            old(self).maze.in_bounds(i2, j2) ==> {
                                &&& self.maze.cells@[i2]@[j2].value == old(self).maze.cells@[i2]@[j2].value
                                &&& self.maze.cells@[i2]@[j2].exit == old(self).maze.cells@[i2]@[j2].exit
                                &&& self.maze.cells@[i2]@[j2].power_up == old(self).maze.cells@[i2]@[j2].power_up
                                &&& (old(self).maze.cells@[i2]@[j2].visited
                                    ==> self.maze.cells@[i2]@[j2].visited)
                                &&& (self.maze.cells@[i2]@[j2].wall ==> old(self).maze.cells@[i2]@[j2].wall)
                            },
                        done ==> ({
                            let q = (self.maze.player_location.0 as int,
                            self.maze.player_location.1 as int);
                            &&& !self.maze.cell(q.0, q.1).exit
                            &&& self.maze.cell(q.0, q.1).visited
                            &&& !self.maze.cell(q.0, q.1).wall
                            &&& exists|p: Seq<(int, int)>| #[trigger] route_ok(self.maze, q, p)
                        }),
                    decreases crate::maze::MAX_PLACEMENT_ATTEMPTS - tries, 1int - (if done {
                        1int
                    } else {
                        0int
                    }),
                {
                    let x = random_below(self.maze.height);
                    let y = random_below(self.maze.width);
                    self.maze.player_location = (x, y);
                    if !self.maze.cells[x][y].exit {
                        match self.maze.shortest_route() {
                            Some(path) => {
                                let ghost m_check = self.maze;
                                self.mark_visited(x, y);
                                self.clear_wall(x, y);
                                done = true;
                                proof {
                                    let q = (x as int, y as int);
                                    let p0 = coords_view(path@);
                                    assert(route_ok(m_check, q, p0));
                                    lemma_route_preserved(m_check, self.maze, q, p0);
                                }
                            },
                            None => {},
                        }
                    }
                    tries = tries + 1;
                }
                if !done {
                    // no reachable free cell came up: stay where we were
                    self.maze.player_location = keep;
                }
            },
            _ => {
                self.player_state.push((5, power));
            },
        }
    }

    /// Walking onto a thread cell consumes that link; stepping off the
    /// thread breaks it; and every running effect burns down one turn.
    fn step_bookkeeping(&mut self, nx: i128, ny: i128)
        requires
            old(self).wf(),
        ensures
            final(self).wf(),
            final(self).maze == old(self).maze,
            final(self).matcher == old(self).matcher,
            final(self).words == old(self).words,
            final(self).score == old(self).score,
            final(self).steps == old(self).steps,
            final(self).won == old(self).won,
            final(self).lost == old(self).lost,
            final(self).notification == old(self).notification,
            final(self).notif_backup == old(self).notif_backup,
            final(self).visible.cells == old(self).visible.cells,
            final(self).visible.selected == old(self).visible.selected,
            final(self).visible.offset == old(self).visible.offset,
            final(self).player_state@ == ticked(old(self).player_state@),
    {
        // walking the thread consumes it; leaving it breaks it
        let mut on_thread: Option<usize> = None;
        let mut k: usize = 0;
        while k < self.visible.thread.len()
            invariant
                on_thread is Some ==> (on_thread->0 as int) < self.visible.thread@.len(),
            decreases self.visible.thread@.len() - k,
        {
            if self.visible.thread[k].0 == nx && self.visible.thread[k].1 == ny {
                on_thread = Some(k);
            }
            k = k + 1;
        }
        match on_thread {
            Some(idx) => {
                self.visible.thread.remove(idx);
            },
            None => {
                self.visible.thread = Vec::new();
            },
        }

        // running effects burn down one turn
        let mut kept: Vec<(usize, PowerUP)> = Vec::new();
        let mut k2: usize = 0;
        while k2 < self.player_state.len()
            invariant
                k2 <= self.player_state@.len(),
                kept@ == ticked(self.player_state@.take(k2 as int)),
            decreases self.player_state@.len() - k2,
        {
            let ghost pre = self.player_state@.take(k2 as int);
            proof {
                assert(self.player_state@.take(k2 as int + 1).drop_last() =~= pre);
                assert(self.player_state@.take(k2 as int + 1).last() == self.player_state@[
                    k2 as int
                ]);
            }
            let (l, p) = self.player_state[k2];
            if l > 0 {
                kept.push((l - 1, p));
            }
            k2 = k2 + 1;
        }
        proof {
            assert(self.player_state@.take(self.player_state@.len() as int)
                =~= self.player_state@);
        }
        self.player_state = kept;
    }

    /// Scores the found words: their saturating total, multiplied by
    /// eight for each ring in effect, is added to the score and the
    /// remaining steps, and the standing message announces them.
    fn apply_gain(&mut self, found_words: Vec<String>)
        requires
            old(self).wf(),
            found_words@.len() > 0,
        ensures
            final(self).wf(),
            final(self).maze == old(self).maze,
            final(self).visible == old(self).visible,
            final(self).matcher == old(self).matcher,
            final(self).player_state == old(self).player_state,
            final(self).words == old(self).words,
            final(self).won == old(self).won,
            final(self).lost == old(self).lost,
            final(self).notification == old(self).notification,
            final(self).score >= old(self).score,
            final(self).steps >= old(self).steps,
            ({
                let g = sat_gain(found_words@.map_values(|w: String| w@));
                let dr0 = count_matching(old(self).player_state@, PowerUP::OdinDraupnir);
                let dr = if dr0 <= 900 {
                    dr0
                } else {
                    900int
                };
                let b = sat_pow8(dr);
                let add2 = if g * b > usize::MAX as int {
                    usize::MAX as int
                } else {
                    g * b
                };
                &&& final(self).score as int == (if old(self).score + add2 <= usize::MAX as int {
                    old(self).score + add2
                } else {
                    usize::MAX as int
                })
                &&& final(self).steps as int == (if old(self).steps + add2 <= usize::MAX as int {
                    old(self).steps + add2
                } else {
                    usize::MAX as int
                })
            }),
    {
        // Draupnir rings multiply the gain by eight each, saturating
        let draupnirs = self.count_power(PowerUP::OdinDraupnir);
        let mut bonus: u128 = 1;
        let mut k4: usize = 0;
        while k4 < draupnirs
            invariant
                k4 <= draupnirs,
                1 <= bonus <= u64::MAX as u128,
                bonus as int == sat_pow8(k4 as int),
            decreases draupnirs - k4,
        {
            if bonus <= (u64::MAX as u128) / 8 {
                bonus = bonus * 8;
            } else {
                bonus = u64::MAX as u128;
            }
            k4 = k4 + 1;
        }
        let ghost found_views = found_words@.map_values(|w: String| w@);
        let mut added: usize = 0;
        let mut msg = "Congrats You found the word: \"".to_owned();
        let mut k5: usize = 0;
        while k5 < found_words.len()
            invariant
                k5 <= found_words@.len(),
                found_views == found_words@.map_values(|w: String| w@),
                added as int == sat_gain(found_views.take(k5 as int)),
            decreases found_words@.len() - k5,
        {
            proof {
                assert(found_views.take(k5 as int + 1).drop_last() =~= found_views.take(
                    k5 as int,
                ));
                assert(found_views.take(k5 as int + 1).last() == found_words@[k5 as int]@);
            }
            let sc = Self::score(found_words[k5].as_str());
            added = if added <= usize::MAX - sc {
                added + sc
            } else {
                usize::MAX
            };
            if k5 > 0 {
                msg.append("\", \"");
            }
            msg.append(found_words[k5].as_str());
            k5 = k5 + 1;
        }
        proof {
            assert(found_views.take(found_views.len() as int) =~= found_views);
        }
        proof {
            assert((added as u128) * bonus <= u128::MAX) by (nonlinear_arith)
                requires
                    added <= u64::MAX,
                    0 <= bonus <= u64::MAX as u128,
            ;
        }
        let total: u128 = (added as u128) * bonus;
        let added_score: usize = if total > usize::MAX as u128 {
            usize::MAX
        } else {
            total as usize
        };
        msg.append("\" and that gave you ");
        msg.append(added_score.to_string().as_str());
        msg.append(" steps.");
        self.notif_backup = msg;
        self.score = if self.score <= usize::MAX - added_score {
            self.score + added_score
        } else {
            usize::MAX
        };
        self.steps = if self.steps <= usize::MAX - added_score {
            self.steps + added_score
        } else {
            usize::MAX
        };
    }

    /// Handles the confirmation of a move: steps onto the selected cell
    /// if it is adjacent and free, collects what lies there, scores the
    /// words the new character completes, and settles wins and losses.
    #[verifier::rlimit(100)]
    #[verifier::spinoff_prover]
    pub fn confirm(&mut self)
        requires
            old(self).wf(),
            old(self).steps >= 1,
        ensures
            final(self).wf(),
            final(self).score >= old(self).score,
            final(self).steps + 1 >= old(self).steps,
            ({
                let selc = old(self).visible.cells@[old(self).visible.selected.0 as int]@[old(self).visible.selected.1 as int];
                let center = old(self).visible.cells@.len() as int / 2;
                let sx = old(self).visible.selected.0 as int;
                let sy = old(self).visible.selected.1 as int;
                let nx = old(self).maze.player_location.0 as int + sx - center;
                let ny = old(self).maze.player_location.1 as int + sy - center;
                let refused = selc.wall || sx - center > 1 || center - sx > 1 || sy - center > 1
                    || center - sy > 1 || nx < 0 || ny < 0 || nx >= old(self).maze.height as int
                    || ny >= old(self).maze.width as int;
                // a refused move changes nothing but the standing message
                &&& (refused ==> final(self).maze == old(self).maze
                    && final(self).visible == old(self).visible
                    && final(self).score == old(self).score
                    && final(self).steps == old(self).steps
                    && final(self).player_state == old(self).player_state
                    && final(self).matcher == old(self).matcher
                    && final(self).won == old(self).won
                    && final(self).lost == old(self).lost
                    && final(self).notification == old(self).notification)
                // an accepted move lands on the selected cell and visits it
                &&& (!refused ==> final(self).maze.cell(nx, ny).visited)
                &&& (!refused && old(self).maze.cells@[nx]@[ny].power_up is None
                    ==> (final(self).maze.player_location.0 as int,
                    final(self).maze.player_location.1 as int) == ((nx, ny))
                    && final(self).player_state@ == ticked(old(self).player_state@))
                // stepping back onto visited ground resets the matcher and
                // costs the step (a collectible could move things first)
                &&& (!refused && old(self).maze.cells@[nx]@[ny].power_up is None
                    && old(self).maze.cells@[nx]@[ny].visited
                    ==> final(self).matcher.current == 0
                    && final(self).matcher.fed@ == Seq::<char>::empty()
                    && final(self).score == old(self).score
                    && final(self).steps == old(self).steps - 1
                    && final(self).won == old(self).won)
                // the game is won exactly by stepping onto the fresh exit
                &&& (!refused && old(self).maze.cells@[nx]@[ny].power_up is None
                    ==> final(self).won == (old(self).won
                    || (!old(self).maze.cells@[nx]@[ny].visited
                    && old(self).maze.cells@[nx]@[ny].exit)))
                &&& (final(self).lost ==> old(self).lost || final(self).steps == 0)
                &&& (!final(self).won && final(self).steps == 0 ==> final(self).lost)
                // the words the stepped-on character completes repay their
                // score, multiplied by the rings in effect, saturating
                &&& (!refused && old(self).maze.cells@[nx]@[ny].power_up is None && !old(
                    self,
                ).maze.cells@[nx]@[ny].visited ==> ({
                    let pw = picked_words(
                        old(self).words@,
                        crate::matcher::feed_output(
                            old(self).matcher,
                            old(self).maze.cells@[nx]@[ny].value,
                        ),
                    );
                    let dr0 = count_matching(ticked(old(self).player_state@), PowerUP::OdinDraupnir);
                    let dr = if dr0 <= 900 {
                        dr0
                    } else {
                        900int
                    };
                    let g = sat_gain(pw);
                    let b = sat_pow8(dr);
                    let gained = if pw.len() == 0 {
                        0int
                    } else if g * b > usize::MAX as int {
                        usize::MAX as int
                    } else {
                        g * b
                    };
                    &&& final(self).score as int == (if old(self).score + gained <= usize::MAX
                        as int {
                        old(self).score + gained
                    } else {
                        usize::MAX as int
                    })
                    &&& (old(self).maze.cells@[nx]@[ny].exit ==> final(self).steps as int == (
                    if old(self).steps + gained <= usize::MAX as int {
                        old(self).steps + gained
                    } else {
                        usize::MAX as int
                    }))
                    &&& (!old(self).maze.cells@[nx]@[ny].exit ==> final(self).steps as int == (
                    if old(self).steps + gained <= usize::MAX as int {
                        old(self).steps + gained
                    } else {
                        usize::MAX as int
                    }) - 1)
                }))
            }),
    {
        let x = self.visible.selected.0;
        let y = self.visible.selected.1;
        if self.visible.cells[x][y].wall {
            self.notif_backup = "That's wall buddy, You're not that strong.".to_owned();
            return ;
        }
        let center = self.visible.cells.len() / 2;
        let dx = if center > x {
            center - x
        } else {
            x - center
        };
        let dy = if center > y {
            center - y
        } else {
            y - center
        };
        if dx > 1 || dy > 1 {
            self.notif_backup = "That's too far try something closer.".to_owned();
            return ;
        }
        // the selected cell in maze coordinates; outside the maze the
        // window shows walls, so a free selection stays inside, but the
        // arithmetic is guarded all the same
        let nx = self.maze.player_location.0 as i128 + x as i128 - center as i128;
        let ny = self.maze.player_location.1 as i128 + y as i128 - center as i128;
        if nx < 0 || ny < 0 || nx >= self.maze.height as i128 || ny >= self.maze.width as i128 {
            self.notif_backup = "That's wall buddy, You're not that strong.".to_owned();
            return ;
        }
        let nxu = nx as usize;
        let nyu = ny as usize;
        self.maze.player_location = (nxu, nyu);
        self.step_bookkeeping(nx, ny);

        if let Some(power) = self.maze.cells[nxu][nyu].power_up {
            self.apply_power_up(power);
        }
        if nxu >= self.maze.height || nyu >= self.maze.width {
            return ;
        }
        if self.maze.cells[nxu][nyu].visited {
            self.matcher.reset();
            if self.steps >= 1 {
                self.steps = self.steps - 1;
            }
            if self.steps == 0 {
                self.lost = true;
            }
            return ;
        }
        self.maze.cells[nxu][nyu].visited = true;
        let walked = self.maze.cells[nxu][nyu].value;
        let inds = self.matcher.next(&walked);

        let mut found_words: Vec<String> = Vec::new();
        let mut k3: usize = 0;
        while k3 < inds.len()
            invariant
                k3 <= inds@.len(),
                found_words@.map_values(|w: String| w@) == picked_words(
                    self.words@,
                    inds@.take(k3 as int),
                ),
            decreases inds@.len() - k3,
        {
            proof {
                assert(inds@.take(k3 as int + 1).drop_last() =~= inds@.take(k3 as int));
                assert(inds@.take(k3 as int + 1).last() == inds@[k3 as int]);
            }
            let ghost fw0 = found_words@;
            let ind = inds[k3];
            if ind < self.words.len() {
                found_words.push(self.words[ind].clone());
                proof {
                    assert(found_words@.map_values(|w: String| w@) =~= fw0.map_values(
                        |w: String| w@,
                    ).push(found_words@.last()@));
                    assert(found_words@.last()@ == self.words@[ind as int]@);
                }
            }
            k3 = k3 + 1;
        }
        proof {
            assert(inds@.take(inds@.len() as int) =~= inds@);
        }
        if found_words.len() > 0 {
            self.apply_gain(found_words);
        }
        if self.maze.cells[nxu][nyu].exit {
            self.won = true;
            return ;
        }
        if self.steps >= 1 {
            self.steps = self.steps - 1;
        }
        if self.steps == 0 {
            self.lost = true;
        }
    }

    /// Moves the selection one cell, clamped to the ring around the
    /// center, or confirms the move and refreshes the window.
    pub fn update(&mut self, action: GameAction)
        requires
            old(self).wf(),
            action is Confirm ==> old(self).steps >= 1,
        ensures
            final(self).wf(),
            ({
                let center = old(self).visible.cells@.len() as int / 2;
                let sel = old(self).visible.selected;
                &&& action is GoUp ==> final(self).maze == old(self).maze && (final(self).visible.selected.0 as int) == (if sel.0 as int - 1 > center - 1 {
                    sel.0 - 1
                } else {
                    center - 1
                }) && final(self).visible.selected.1 == sel.1
                &&& action is GoDown ==> final(self).maze == old(self).maze && (final(self).visible.selected.0 as int) == (if sel.0 as int + 1 < center + 1 {
                    sel.0 + 1
                } else {
                    center + 1
                }) && final(self).visible.selected.1 == sel.1
                &&& action is GoLeft ==> final(self).maze == old(self).maze && (final(self).visible.selected.1 as int) == (if sel.1 as int - 1 > center - 1 {
                    sel.1 - 1
                } else {
                    center - 1
                }) && final(self).visible.selected.0 == sel.0
                &&& action is GoRight ==> final(self).maze == old(self).maze && (final(self).visible.selected.1 as int) == (if sel.1 as int + 1 < center + 1 {
                    sel.1 + 1
                } else {
                    center + 1
                }) && final(self).visible.selected.0 == sel.0
                &&& action is Confirm ==> (final(self).visible.selected.0 as int) == final(self).visible.cells@.len() as int / 2
                    && (final(self).visible.selected.1 as int) == final(self).visible.cells@.len() as int / 2
            }),
    {
        let center = self.visible.cells.len() / 2;
        let lo = if center > 0 {
            center - 1
        } else {
            0
        };
        match action {
            GameAction::GoUp => {
                let cand = if self.visible.selected.0 > 0 {
                    self.visible.selected.0 - 1
                } else {
                    0
                };
                self.visible.selected.0 = if cand > lo {
                    cand
                } else {
                    lo
                };
            },
            GameAction::GoDown => {
                let cand = self.visible.selected.0 + 1;
                let hi = center + 1;
                self.visible.selected.0 = if cand < hi {
                    cand
                } else {
                    hi
                };
            },
            GameAction::GoLeft => {
                let cand = if self.visible.selected.1 > 0 {
                    self.visible.selected.1 - 1
                } else {
                    0
                };
                self.visible.selected.1 = if cand > lo {
                    cand
                } else {
                    lo
                };
            },
            GameAction::GoRight => {
                let cand = self.visible.selected.1 + 1;
                let hi = center + 1;
                self.visible.selected.1 = if cand < hi {
                    cand
                } else {
                    hi
                };
            },
            GameAction::Confirm => {
                self.confirm();
                self.update_visual();
            },
        }
        self.show_selected();
    }
}

} // verus!
