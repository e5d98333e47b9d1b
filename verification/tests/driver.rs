use life_viewport::cull::ViewExtent;
use life_viewport::driver::{FrameDriver, Phase, ProtocolError, Reply, Request, Viewport};
use life_viewport::edits::{EditQueue, Intent};
use life_viewport::lattice::{Universe, Window};
use life_viewport::lod::Scale;
use std::collections::BTreeSet;

const HALF: i64 = 1 << 61;

/// A stand-in for the engine: the live cells of the working handle, and a
/// record of what was asked of it.
struct Engine {
    cells: BTreeSet<(i64, i64)>,
    bias: i64,
    generation: usize,
    expansions: usize,
    log: Vec<Request>,
}

impl Engine {
    fn with(cells: &[(i64, i64)]) -> Engine {
        Engine::of_bias(HALF, cells)
    }

    fn of_bias(bias: i64, cells: &[(i64, i64)]) -> Engine {
        Engine { cells: cells.iter().copied().collect(), bias, generation: 0, expansions: 0, log: Vec::new() }
    }

    fn serve(&mut self, request: Request) -> Reply {
        self.log.push(request);
        match request {
            Request::Read { at } => Reply::Cell(self.cells.contains(&at)),
            Request::Modify { at, alive, .. } => {
                if alive {
                    self.cells.insert(at);
                } else {
                    self.cells.remove(&at);
                }
                Reply::Done
            }
            Request::Advance { steps } => {
                self.generation += steps;
                Reply::Done
            }
            Request::Expand => {
                self.expansions += 1;
                Reply::Done
            }
            Request::Enumerate { window, .. } => {
                let bias = self.bias;
                Reply::Cells(
                    self.cells
                        .iter()
                        .copied()
                        .filter(|c| window.contains(*c))
                        .map(|c| (c.0 - bias, c.1 - bias))
                        .collect(),
                )
            }
            Request::Present => panic!("nothing is asked of the engine between frames"),
        }
    }
}

fn view(scale: f32, min: (f32, f32), max: (f32, f32)) -> Viewport {
    Viewport {
        scale: Scale::from_bits(scale.to_bits()).unwrap(),
        window: Window {
            min: (min.0.floor() as i64, min.1.floor() as i64),
            max: (max.0.ceil() as i64, max.1.ceil() as i64),
        },
        extent: ViewExtent {
            low: ((2.0 * min.0).ceil() as i64, (2.0 * min.1).ceil() as i64),
            high: ((2.0 * max.0).floor() as i64, (2.0 * max.1).floor() as i64),
        },
    }
}

fn usual_view() -> Viewport {
    view(20.0, (-18.0, -12.0), (18.0, 12.0))
}

fn run_frame(driver: &mut FrameDriver, queue: &mut EditQueue, engine: &mut Engine, steps: usize, view: Viewport) {
    let mut request = driver.begin(queue, steps, view).unwrap();
    let mut replies = 0;
    while request != Request::Present {
        assert_eq!(driver.outstanding(), request);
        let reply = engine.serve(request);
        request = driver.advance(reply).unwrap();
        replies += 1;
        assert!(replies < 10_000);
    }
    assert_eq!(driver.phase(), Phase::Idle);
}

fn session() -> FrameDriver {
    FrameDriver::new(Universe::new(62).unwrap())
}

#[test]
fn a_new_driver_is_idle() {
    let driver = session();
    assert_eq!(driver.phase(), Phase::Idle);
    assert_eq!(driver.outstanding(), Request::Present);
    assert!(driver.visible().is_empty());
    assert_eq!(driver.universe().depth(), 62);
}

#[test]
fn a_toggle_of_a_dead_cell_makes_it_alive() {
    let mut driver = session();
    let mut queue = EditQueue::new();
    let mut engine = Engine::with(&[]);
    queue.enqueue((3, -4), Intent::Toggle);
    run_frame(&mut driver, &mut queue, &mut engine, 0, usual_view());
    assert!(engine.cells.contains(&(HALF + 3, HALF - 4)));
    assert_eq!(engine.cells.len(), 1);
}

#[test]
fn a_toggle_of_a_live_cell_makes_it_dead() {
    let mut driver = session();
    let mut queue = EditQueue::new();
    let mut engine = Engine::with(&[(HALF + 3, HALF - 4), (HALF, HALF)]);
    queue.enqueue((3, -4), Intent::Toggle);
    run_frame(&mut driver, &mut queue, &mut engine, 0, usual_view());
    assert!(!engine.cells.contains(&(HALF + 3, HALF - 4)));
    assert!(engine.cells.contains(&(HALF, HALF)));
}

#[test]
fn a_toggle_is_a_read_and_then_a_write_of_the_inverse() {
    let mut driver = session();
    let mut queue = EditQueue::new();
    queue.enqueue((1, 2), Intent::Toggle);
    let at = (HALF + 1, HALF + 2);
    assert_eq!(driver.begin(&mut queue, 7, usual_view()), Ok(Request::Read { at }));
    assert_eq!(driver.phase(), Phase::ApplyEdits);
    assert_eq!(driver.advance(Reply::Cell(false)), Ok(Request::Modify { at, alive: true, depth: 62 }));
    assert_eq!(driver.phase(), Phase::ApplyEdits);
    assert_eq!(driver.advance(Reply::Done), Ok(Request::Advance { steps: 7 }));
    assert_eq!(driver.phase(), Phase::Step);

    let mut driver = session();
    queue.enqueue((1, 2), Intent::Toggle);
    assert_eq!(driver.begin(&mut queue, 7, usual_view()), Ok(Request::Read { at }));
    assert_eq!(driver.advance(Reply::Cell(true)), Ok(Request::Modify { at, alive: false, depth: 62 }));
}

#[test]
fn setting_a_cell_writes_without_reading() {
    let mut driver = session();
    let mut queue = EditQueue::new();
    queue.enqueue((0, 0), Intent::SetAlive);
    queue.enqueue((-1, 5), Intent::SetDead);
    assert_eq!(
        driver.begin(&mut queue, 1, usual_view()),
        Ok(Request::Modify { at: (HALF, HALF), alive: true, depth: 62 })
    );
    assert_eq!(
        driver.advance(Reply::Done),
        Ok(Request::Modify { at: (HALF - 1, HALF + 5), alive: false, depth: 62 })
    );
    assert_eq!(driver.advance(Reply::Done), Ok(Request::Advance { steps: 1 }));
}

#[test]
fn a_frame_asks_in_order_edits_step_expand_enumerate() {
    let mut driver = session();
    let mut queue = EditQueue::new();
    let mut engine = Engine::with(&[]);
    queue.enqueue((0, 0), Intent::SetAlive);
    queue.enqueue((1, 0), Intent::Toggle);
    run_frame(&mut driver, &mut queue, &mut engine, 4, usual_view());
    assert_eq!(
        engine.log,
        vec![
            Request::Modify { at: (HALF, HALF), alive: true, depth: 62 },
            Request::Read { at: (HALF + 1, HALF) },
            Request::Modify { at: (HALF + 1, HALF), alive: true, depth: 62 },
            Request::Advance { steps: 4 },
            Request::Expand,
            Request::Enumerate {
                depth: 0,
                window: Window { min: (HALF - 18, HALF - 12), max: (HALF + 18, HALF + 12) },
            },
        ]
    );
    assert_eq!(engine.generation, 4);
    assert_eq!(engine.expansions, 1);
    assert!(queue.is_empty());
}

#[test]
fn a_frame_without_edits_goes_straight_to_the_step() {
    let mut driver = session();
    let mut queue = EditQueue::new();
    assert_eq!(driver.begin(&mut queue, 3, usual_view()), Ok(Request::Advance { steps: 3 }));
    assert_eq!(driver.phase(), Phase::Step);
    assert_eq!(driver.advance(Reply::Done), Ok(Request::Expand));
    assert_eq!(driver.phase(), Phase::Step);
    assert!(matches!(driver.advance(Reply::Done), Ok(Request::Enumerate { .. })));
    assert_eq!(driver.phase(), Phase::Rendered);
    assert_eq!(driver.advance(Reply::Cells(vec![])), Ok(Request::Present));
    assert_eq!(driver.phase(), Phase::Idle);
}

#[test]
fn a_step_count_of_zero_is_still_asked_and_expanded() {
    let mut driver = session();
    let mut queue = EditQueue::new();
    let mut engine = Engine::with(&[(HALF, HALF)]);
    run_frame(&mut driver, &mut queue, &mut engine, 0, usual_view());
    assert_eq!(engine.log[0], Request::Advance { steps: 0 });
    assert_eq!(engine.log[1], Request::Expand);
    assert_eq!(engine.generation, 0);
    assert_eq!(driver.visible(), &vec![(0, 0)]);
}

#[test]
fn edits_outside_the_universe_are_dropped() {
    let mut driver = FrameDriver::new(Universe::new(3).unwrap());
    let mut queue = EditQueue::new();
    let mut engine = Engine::of_bias(4, &[]);
    queue.enqueue((4, 0), Intent::SetAlive);
    queue.enqueue((-4, 3), Intent::SetAlive);
    queue.enqueue((0, -5), Intent::Toggle);
    queue.enqueue((3, 3), Intent::Toggle);
    queue.enqueue((i64::MAX, i64::MIN), Intent::SetAlive);
    run_frame(&mut driver, &mut queue, &mut engine, 1, usual_view());
    assert_eq!(engine.cells.iter().copied().collect::<Vec<_>>(), vec![(0, 7), (7, 7)]);
    assert_eq!(
        engine.log[..3],
        [
            Request::Modify { at: (0, 7), alive: true, depth: 3 },
            Request::Read { at: (7, 7) },
            Request::Modify { at: (7, 7), alive: true, depth: 3 },
        ]
    );
    assert!(queue.is_empty());
}

#[test]
fn each_cell_of_a_batch_is_committed_on_its_own() {
    let before = [(HALF, HALF), (HALF + 1, HALF), (HALF + 2, HALF), (HALF + 9, HALF + 9)];
    let mut driver = session();
    let mut queue = EditQueue::new();
    let mut engine = Engine::with(&before);
    queue.enqueue((0, 0), Intent::Toggle);
    queue.enqueue((1, 0), Intent::SetDead);
    queue.enqueue((2, 0), Intent::SetAlive);
    queue.enqueue((3, 0), Intent::Toggle);
    queue.enqueue((4, 0), Intent::SetDead);
    queue.enqueue((5, 0), Intent::SetAlive);
    queue.enqueue((3, 0), Intent::Toggle);
    run_frame(&mut driver, &mut queue, &mut engine, 0, usual_view());
    assert_eq!(
        engine.cells.iter().copied().collect::<Vec<_>>(),
        vec![(HALF + 2, HALF), (HALF + 3, HALF), (HALF + 5, HALF), (HALF + 9, HALF + 9)]
    );
}

#[test]
fn a_frame_cannot_begin_while_another_is_in_progress() {
    let mut driver = session();
    let mut queue = EditQueue::new();
    queue.enqueue((0, 0), Intent::SetAlive);
    let first = driver.begin(&mut queue, 1, usual_view()).unwrap();
    queue.enqueue((5, 5), Intent::Toggle);
    assert_eq!(driver.begin(&mut queue, 9, usual_view()), Err(ProtocolError::Busy));
    assert_eq!(queue.len(), 1);
    assert_eq!(queue.pending((5, 5)), Some(Intent::Toggle));
    assert_eq!(driver.outstanding(), first);
    assert_eq!(driver.advance(Reply::Done), Ok(Request::Advance { steps: 1 }));
}

#[test]
fn a_reply_that_does_not_answer_the_request_is_refused() {
    let mut driver = session();
    let mut queue = EditQueue::new();
    assert_eq!(driver.advance(Reply::Done), Err(ProtocolError::Unexpected));
    assert_eq!(driver.advance(Reply::Cell(true)), Err(ProtocolError::Unexpected));
    assert_eq!(driver.advance(Reply::Cells(vec![])), Err(ProtocolError::Unexpected));
    queue.enqueue((0, 0), Intent::Toggle);
    let read = driver.begin(&mut queue, 1, usual_view()).unwrap();
    assert_eq!(driver.advance(Reply::Done), Err(ProtocolError::Unexpected));
    assert_eq!(driver.advance(Reply::Cells(vec![(0, 0)])), Err(ProtocolError::Unexpected));
    assert_eq!(driver.outstanding(), read);
    let write = driver.advance(Reply::Cell(false)).unwrap();
    assert_eq!(driver.advance(Reply::Cell(false)), Err(ProtocolError::Unexpected));
    assert_eq!(driver.outstanding(), write);
    assert_eq!(driver.advance(Reply::Done), Ok(Request::Advance { steps: 1 }));
    assert_eq!(driver.advance(Reply::Cell(false)), Err(ProtocolError::Unexpected));
    assert_eq!(driver.advance(Reply::Done), Ok(Request::Expand));
    assert_eq!(driver.advance(Reply::Cells(vec![])), Err(ProtocolError::Unexpected));
    let enumerate = driver.advance(Reply::Done).unwrap();
    assert_eq!(driver.advance(Reply::Done), Err(ProtocolError::Unexpected));
    assert_eq!(driver.outstanding(), enumerate);
    assert_eq!(driver.advance(Reply::Cells(vec![])), Ok(Request::Present));
}

#[test]
fn what_shows_is_culled() {
    let mut driver = session();
    let mut queue = EditQueue::new();
    assert!(matches!(driver.begin(&mut queue, 0, usual_view()), Ok(Request::Advance { .. })));
    driver.advance(Reply::Done).unwrap();
    driver.advance(Reply::Done).unwrap();
    let reported = vec![(0, 0), (18, 12), (19, 0), (-18, -12), (0, -13), (5, -7), (-19, 12)];
    assert_eq!(driver.advance(Reply::Cells(reported)), Ok(Request::Present));
    assert_eq!(driver.visible(), &vec![(0, 0), (18, 12), (-18, -12), (5, -7)]);
    assert_eq!(driver.depth(), 0);
}

#[test]
fn the_visible_set_is_rebuilt_every_frame() {
    let mut driver = session();
    let mut queue = EditQueue::new();
    let mut engine = Engine::with(&[(HALF + 1, HALF + 1)]);
    run_frame(&mut driver, &mut queue, &mut engine, 0, usual_view());
    assert_eq!(driver.visible(), &vec![(1, 1)]);
    queue.enqueue((1, 1), Intent::SetDead);
    queue.enqueue((2, 2), Intent::SetAlive);
    assert!(matches!(driver.begin(&mut queue, 0, usual_view()), Ok(Request::Modify { .. })));
    assert!(driver.visible().is_empty());
    let mut request = driver.outstanding();
    while request != Request::Present {
        request = driver.advance(engine.serve(request)).unwrap();
    }
    assert_eq!(driver.visible(), &vec![(2, 2)]);
}

#[test]
fn zoomed_out_the_engine_is_asked_for_coarser_macrocells() {
    let mut driver = session();
    let mut queue = EditQueue::new();
    let far = view(0.1, (-3600.0, -2400.0), (3600.0, 2400.0));
    driver.begin(&mut queue, 0, far).unwrap();
    driver.advance(Reply::Done).unwrap();
    assert_eq!(
        driver.advance(Reply::Done),
        Ok(Request::Enumerate {
            depth: 3,
            window: Window { min: (HALF - 3600, HALF - 2400), max: (HALF + 3600, HALF + 2400) },
        })
    );
    let reported = vec![(3600, 0), (3604, 0), (3605, 0)];
    assert_eq!(driver.advance(Reply::Cells(reported)), Ok(Request::Present));
    assert_eq!(driver.visible(), &vec![(3600, 0), (3604, 0)]);
    assert_eq!(driver.depth(), 3);
}

#[test]
fn the_depth_asked_is_never_deeper_than_the_universe() {
    let mut driver = FrameDriver::new(Universe::new(4).unwrap());
    let mut queue = EditQueue::new();
    let far = view(1.0e-9, (-1.0e9, -1.0e9), (1.0e9, 1.0e9));
    driver.begin(&mut queue, 0, far).unwrap();
    driver.advance(Reply::Done).unwrap();
    assert_eq!(
        driver.advance(Reply::Done),
        Ok(Request::Enumerate { depth: 4, window: Window { min: (0, 0), max: (15, 15) } })
    );
}

#[test]
fn a_view_beside_the_universe_enumerates_nothing() {
    let mut driver = FrameDriver::new(Universe::new(3).unwrap());
    let mut queue = EditQueue::new();
    let mut engine = Engine::of_bias(4, &[(1, 1)]);
    queue.enqueue((0, 0), Intent::SetAlive);
    run_frame(&mut driver, &mut queue, &mut engine, 2, view(20.0, (10.0, 10.0), (46.0, 34.0)));
    assert_eq!(
        engine.log,
        vec![
            Request::Modify { at: (4, 4), alive: true, depth: 3 },
            Request::Advance { steps: 2 },
            Request::Expand,
        ]
    );
    assert!(driver.visible().is_empty());
    assert_eq!(driver.phase(), Phase::Idle);
}

#[test]
fn the_window_asked_is_cut_to_the_universe() {
    let mut driver = FrameDriver::new(Universe::new(3).unwrap());
    let mut queue = EditQueue::new();
    let mut engine = Engine::of_bias(4, &[(0, 0), (7, 7), (3, 4)]);
    run_frame(&mut driver, &mut queue, &mut engine, 0, view(20.0, (-18.0, -12.0), (18.0, 12.0)));
    assert_eq!(
        engine.log[2],
        Request::Enumerate { depth: 0, window: Window { min: (0, 0), max: (7, 7) } }
    );
    assert_eq!(driver.visible(), &vec![(-4, -4), (-1, 0), (3, 3)]);
}

#[test]
fn a_frame_takes_one_reply_for_each_request() {
    let mut driver = session();
    let mut queue = EditQueue::new();
    let mut engine = Engine::with(&[]);
    for x in 0..10i64 {
        let intent = if x % 2 == 0 { Intent::Toggle } else { Intent::SetAlive };
        queue.enqueue((x, 0), intent);
    }
    run_frame(&mut driver, &mut queue, &mut engine, 1, usual_view());
    assert_eq!(engine.log.len(), 5 * 2 + 5 + 3);
    assert_eq!(engine.cells.len(), 10);
    assert_eq!(driver.visible().len(), 10);
}
