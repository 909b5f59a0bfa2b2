use desktop_space::damage::reduce_damage;
use desktop_space::entity::{Layer, LayerKind, Output, SurfaceLeaf, ToplevelId, Window};
use desktop_space::geometry::{Point, Rectangle, Size};
use desktop_space::ids::{next_space_id, SpaceIds};
use desktop_space::membership::SurfaceEvent;
use desktop_space::space::{RenderError, Space};

fn rect(x: i32, y: i32, w: i32, h: i32) -> Rectangle {
    Rectangle::from_loc_and_size(Point { x, y }, Size { w, h })
}

fn pt(x: i32, y: i32) -> Point {
    Point { x, y }
}

fn window(id: u64, w: i32, h: i32) -> Window {
    Window::new(id, 100 + id, rect(0, 0, w, h), rect(0, 0, w, h), rect(0, 0, w, h))
}

fn output(id: u64, w: i32, h: i32) -> Output {
    Output { id, mode: Some(Size { w, h }), layers: Vec::new() }
}

fn setup() -> (SpaceIds, Space) {
    let mut ids = SpaceIds::new();
    let space = Space::new(&mut ids);
    (ids, space)
}

fn ids_of(space: &Space) -> Vec<u64> {
    space.windows().iter().map(|w| w.id).collect()
}

#[test]
fn first_render_repaints_output_then_idle_frame_draws_nothing() {
    let (_ids, mut space) = setup();
    let o = output(1, 800, 600);
    space.map_output(output(1, 800, 600), 1, pt(0, 0));
    space.map_window(window(7, 200, 200), pt(100, 100));

    let plan = space.render_output(&o, 0).unwrap().unwrap();
    assert_eq!(plan.damage(), &vec![rect(0, 0, 800, 600)]);
    assert_eq!(plan.paints().len(), 1);
    assert_eq!(plan.paints()[0].id, ToplevelId::Xdg(7));
    assert_eq!(space.finish_render(plan, true), Ok(true));

    // The first frame recorded the new window's rectangle as damage, so a
    // buffer one frame old still lacks it.
    let second = space.render_output(&o, 1).unwrap().unwrap();
    assert_eq!(second.damage(), &vec![rect(100, 100, 200, 200)]);
    assert_eq!(space.finish_render(second, true), Ok(true));

    let third = space.render_output(&o, 1).unwrap();
    assert!(third.is_none());
}

#[test]
fn moved_window_damages_merged_old_and_new_rectangles() {
    let (_ids, mut space) = setup();
    let o = output(1, 800, 600);
    space.map_output(output(1, 800, 600), 1, pt(0, 0));
    space.map_window(window(7, 200, 200), pt(100, 100));
    let plan = space.render_output(&o, 0).unwrap().unwrap();
    assert_eq!(space.finish_render(plan, true), Ok(true));
    let plan = space.render_output(&o, 1).unwrap().unwrap();
    assert_eq!(space.finish_render(plan, true), Ok(true));
    assert!(space.render_output(&o, 1).unwrap().is_none());

    space.map_window(window(7, 200, 200), pt(150, 100));
    let plan = space.render_output(&o, 1).unwrap().unwrap();
    assert_eq!(plan.damage(), &vec![rect(100, 100, 250, 200)]);
    assert_eq!(plan.paints().len(), 1);
    let paint = &plan.paints()[0];
    assert_eq!(paint.id, ToplevelId::Xdg(7));
    assert_eq!(paint.rect, rect(150, 100, 200, 200));
    assert_eq!(paint.location, pt(150, 100));
    assert_eq!(paint.damage, vec![rect(0, 0, 200, 200)]);
    assert_eq!(space.finish_render(plan, true), Ok(true));
}

#[test]
fn merge_gives_enclosing_box() {
    let a = rect(100, 100, 200, 200);
    let b = rect(150, 100, 200, 200);
    assert_eq!(a.merge(&b), rect(100, 100, 250, 200));
    assert_eq!(rect(0, 0, 10, 10).merge(&rect(20, 30, 5, 5)), rect(0, 0, 25, 35));
}

#[test]
fn intersection_and_overlap() {
    let a = rect(0, 0, 100, 100);
    assert_eq!(a.intersection(&rect(50, 60, 100, 100)), Some(rect(50, 60, 50, 40)));
    assert!(!a.overlaps(&rect(100, 0, 10, 10)));
    assert_eq!(a.intersection(&rect(100, 0, 10, 10)), None);
    assert!(a.contains_rect(&rect(10, 10, 90, 90)));
    assert!(!a.contains_rect(&rect(10, 10, 91, 90)));
    assert!(a.contains_point(pt(99, 0)));
    assert!(!a.contains_point(pt(100, 0)));
}

#[test]
fn reduction_drops_empty_and_outside_and_merges_chains() {
    let out = rect(0, 0, 800, 600);
    let damage = vec![
        rect(10, 10, 0, 5),
        rect(900, 0, 10, 10),
        rect(0, 0, 10, 10),
        rect(0, 0, 10, 10),
        rect(2, 2, 3, 3),
        rect(100, 100, 20, 20),
        rect(115, 100, 20, 20),
        rect(130, 110, 20, 20),
    ];
    let r = reduce_damage(&damage, &out);
    assert_eq!(r, vec![rect(0, 0, 10, 10), rect(100, 100, 50, 30)]);
    for (i, a) in r.iter().enumerate() {
        for b in r.iter().skip(i + 1) {
            assert!(!a.overlaps(b));
        }
    }
    assert!(reduce_damage(&vec![], &out).is_empty());
}

#[test]
fn mapping_twice_only_raises_and_moves() {
    let (_ids, mut space) = setup();
    space.map_window(window(1, 10, 10), pt(0, 0));
    space.map_window(window(2, 10, 10), pt(0, 0));
    space.map_window(window(1, 10, 10), pt(5, 5));
    assert_eq!(ids_of(&space), vec![2, 1]);
    assert_eq!(space.window_bbox(&window(1, 10, 10)), Some(rect(5, 5, 10, 10)));
    assert!(space.windows()[1].activated);
    assert!(!space.windows()[0].activated);
    space.map_window(window(1, 10, 10), pt(5, 5));
    assert_eq!(ids_of(&space), vec![2, 1]);
    space.raise_window(&window(2, 10, 10));
    assert_eq!(ids_of(&space), vec![1, 2]);
    space.raise_window(&window(9, 10, 10));
    assert_eq!(ids_of(&space), vec![1, 2]);
}

#[test]
fn unmap_removes_from_hit_tests_and_map_puts_on_top() {
    let (_ids, mut space) = setup();
    space.map_window(window(1, 100, 100), pt(0, 0));
    space.map_window(window(2, 100, 100), pt(50, 50));
    assert_eq!(space.window_under(pt(60, 60)).map(|w| w.id), Some(2));
    space.unmap_window(&window(2, 100, 100));
    assert_eq!(ids_of(&space), vec![1]);
    assert_eq!(space.window_under(pt(60, 60)).map(|w| w.id), Some(1));
    assert_eq!(space.window_under(pt(120, 120)).map(|w| w.id), None);
    assert_eq!(space.window_geometry(&window(2, 100, 100)), None);
    assert_eq!(space.window_bbox(&window(2, 100, 100)), None);
    space.unmap_window(&window(2, 100, 100));
    space.map_window(window(2, 100, 100), pt(50, 50));
    assert_eq!(ids_of(&space), vec![1, 2]);
}

#[test]
fn output_geometry_and_scale() {
    let (_ids, mut space) = setup();
    space.map_output(output(1, 800, 600), 2, pt(10, 20));
    assert_eq!(space.output_geometry(&output(1, 0, 0)), Some(rect(10, 20, 400, 300)));
    assert_eq!(space.output_scale(&output(1, 0, 0)), Some(2));
    assert_eq!(space.output_geometry(&output(2, 0, 0)), None);
    assert_eq!(space.output_under(pt(15, 25)).map(|o| o.id), Some(1));
    assert_eq!(space.output_under(pt(0, 0)).map(|o| o.id), None);
    space.unmap_output(&output(1, 0, 0));
    assert_eq!(space.outputs().len(), 0);
    assert_eq!(space.output_scale(&output(1, 0, 0)), None);
}

#[test]
fn outputs_for_window_sorted_by_growing_overlap() {
    let (_ids, mut space) = setup();
    space.map_output(output(1, 100, 100), 1, pt(0, 0));
    space.map_output(output(2, 100, 100), 1, pt(100, 0));
    space.map_output(output(3, 100, 100), 1, pt(500, 0));
    space.map_window(window(7, 100, 50), pt(70, 0));
    assert_eq!(space.outputs_for_window(&window(7, 0, 0)), vec![1, 2]);
    space.map_window(window(7, 100, 50), pt(30, 0));
    assert_eq!(space.outputs_for_window(&window(7, 0, 0)), vec![2, 1]);
    assert!(space.outputs_for_window(&window(8, 0, 0)).is_empty());
}

#[test]
fn refresh_sends_enter_then_leave_when_window_moves_off() {
    let (_ids, mut space) = setup();
    space.map_output(output(1, 800, 600), 1, pt(0, 0));
    let mut w = window(7, 200, 200);
    w.surfaces = vec![
        SurfaceLeaf { id: 70, offset: pt(0, 0), size: Some(Size { w: 200, h: 200 }) },
        SurfaceLeaf { id: 71, offset: pt(10, 10), size: Some(Size { w: 20, h: 20 }) },
        SurfaceLeaf { id: 72, offset: pt(0, 0), size: None },
    ];
    space.map_window(w, pt(100, 100));
    let events = space.refresh(&vec![]);
    assert_eq!(
        events,
        vec![
            SurfaceEvent::Enter { output: 1, surface: 70 },
            SurfaceEvent::Enter { output: 1, surface: 71 },
        ]
    );
    assert!(space.refresh(&vec![]).is_empty());

    let mut moved = window(7, 200, 200);
    moved.surfaces = space.windows()[0].surfaces.clone();
    space.map_window(moved, pt(2000, 2000));
    let events = space.refresh(&vec![]);
    assert_eq!(
        events,
        vec![
            SurfaceEvent::Leave { output: 1, surface: 70 },
            SurfaceEvent::Leave { output: 1, surface: 71 },
        ]
    );
    assert!(space.outputs()[0].state.surfaces.is_empty());
}

#[test]
fn refresh_prunes_dead_windows() {
    let (_ids, mut space) = setup();
    space.map_window(window(1, 10, 10), pt(0, 0));
    let mut dead = window(2, 10, 10);
    dead.alive = false;
    space.map_window(dead, pt(0, 0));
    space.refresh(&vec![]);
    assert_eq!(ids_of(&space), vec![1]);
}

#[test]
fn frames_go_to_drawn_windows_once() {
    let (_ids, mut space) = setup();
    let o = output(1, 800, 600);
    space.map_output(output(1, 800, 600), 1, pt(0, 0));
    space.map_window(window(1, 100, 100), pt(0, 0));
    space.map_window(window(2, 100, 100), pt(2000, 0));
    let plan = space.render_output(&o, 0).unwrap().unwrap();
    assert_eq!(space.finish_render(plan, true), Ok(true));
    assert_eq!(space.send_frames(false), vec![ToplevelId::Xdg(1)]);
    assert!(space.send_frames(false).is_empty());
    assert_eq!(space.send_frames(true), vec![ToplevelId::Xdg(1), ToplevelId::Xdg(2)]);
}

#[test]
fn failed_render_forces_full_repaint() {
    let (_ids, mut space) = setup();
    let o = output(1, 800, 600);
    space.map_output(output(1, 800, 600), 1, pt(0, 0));
    space.map_window(window(1, 100, 100), pt(0, 0));
    let plan = space.render_output(&o, 0).unwrap().unwrap();
    assert_eq!(space.finish_render(plan, false), Err(RenderError::Rendering));
    assert!(space.outputs()[0].state.last_state.is_empty());
    let plan = space.render_output(&o, 1).unwrap().unwrap();
    assert_eq!(plan.damage(), &vec![rect(0, 0, 800, 600)]);
}

#[test]
fn self_damage_of_still_window_is_offset_by_location() {
    let (_ids, mut space) = setup();
    let o = output(1, 800, 600);
    space.map_output(output(1, 800, 600), 1, pt(0, 0));
    space.map_window(window(1, 100, 100), pt(50, 50));
    let plan = space.render_output(&o, 0).unwrap().unwrap();
    assert_eq!(space.finish_render(plan, true), Ok(true));
    let plan = space.render_output(&o, 1).unwrap().unwrap();
    assert_eq!(plan.damage(), &vec![rect(50, 50, 100, 100)]);
    assert_eq!(space.finish_render(plan, true), Ok(true));
    let mut w = window(1, 100, 100);
    w.damage = vec![rect(10, 10, 5, 5)];
    space.commit(w);
    let plan = space.render_output(&o, 1).unwrap().unwrap();
    assert_eq!(plan.damage(), &vec![rect(60, 60, 5, 5)]);
    assert_eq!(plan.paints()[0].damage, vec![rect(10, 10, 5, 5)]);
}

#[test]
fn render_errors_for_unknown_output_and_missing_mode() {
    let (_ids, mut space) = setup();
    assert_eq!(space.render_output(&output(1, 10, 10), 0).err(), Some(RenderError::UnknownOutput));
    let no_mode = Output { id: 2, mode: None, layers: Vec::new() };
    space.map_output(Output { id: 2, mode: None, layers: Vec::new() }, 1, pt(0, 0));
    assert_eq!(space.render_output(&no_mode, 0).err(), Some(RenderError::OutputNoMode));
}

#[test]
fn layers_paint_around_windows() {
    let (_ids, mut space) = setup();
    let layers = vec![
        Layer { id: 30, surface: 300, layer: LayerKind::Overlay, geometry: rect(0, 0, 800, 20), damage: Vec::new() },
        Layer { id: 10, surface: 100, layer: LayerKind::Background, geometry: rect(0, 0, 800, 600), damage: Vec::new() },
        Layer { id: 20, surface: 200, layer: LayerKind::Top, geometry: rect(0, 500, 800, 100), damage: Vec::new() },
    ];
    let o = Output { id: 1, mode: Some(Size { w: 800, h: 600 }), layers };
    space.map_output(o, 1, pt(0, 0));
    space.map_window(window(5, 100, 100), pt(100, 100));
    let plan = space.render_output(&output(1, 800, 600), 0).unwrap().unwrap();
    let order: Vec<ToplevelId> = plan.paints().iter().map(|p| p.id).collect();
    assert_eq!(
        order,
        vec![ToplevelId::Layer(10), ToplevelId::Xdg(5), ToplevelId::Layer(20), ToplevelId::Layer(30)]
    );
    assert_eq!(space.finish_render(plan, true), Ok(true));
    assert_eq!(
        space.send_frames(false),
        vec![ToplevelId::Xdg(5), ToplevelId::Layer(30), ToplevelId::Layer(10), ToplevelId::Layer(20)]
    );
}

#[test]
fn space_ids_are_unique_and_released() {
    let mut ids = SpaceIds::new();
    let a = next_space_id(&mut ids);
    let b = next_space_id(&mut ids);
    assert_ne!(a, b);
    ids.release(a);
    let c = next_space_id(&mut ids);
    assert_ne!(c, b);
    let s = Space::new(&mut ids);
    assert!(s.id() != b && s.id() != c);
    s.destroy(&mut ids);
}

#[test]
fn surfaces_lead_to_their_window_and_layer() {
    let (_ids, mut space) = setup();
    space.map_window(window(1, 10, 10), pt(0, 0));
    space.map_window(window(2, 10, 10), pt(0, 0));
    assert_eq!(space.window_for_surface(102).map(|w| w.id), Some(2));
    assert!(space.window_for_surface(5).is_none());
    let layers = vec![Layer { id: 4, surface: 40, layer: LayerKind::Top, geometry: rect(0, 0, 10, 10), damage: Vec::new() }];
    space.map_output(Output { id: 1, mode: Some(Size { w: 10, h: 10 }), layers }, 1, pt(0, 0));
    assert_eq!(space.layer_for_surface(40).map(|l| l.id), Some(4));
    assert!(space.layer_for_surface(41).is_none());
}

#[test]
fn window_bbox_includes_popups_and_geometry_does_not() {
    let (_ids, mut space) = setup();
    let w = Window::new(3, 103, rect(0, 0, 10, 10), rect(0, 0, 10, 10), rect(-5, -5, 20, 20));
    space.map_window(w, pt(100, 100));
    assert_eq!(space.window_bbox(&window(3, 0, 0)), Some(rect(95, 95, 20, 20)));
    assert_eq!(space.window_geometry(&window(3, 0, 0)), Some(rect(100, 100, 10, 10)));
}

#[test]
fn dead_surfaces_leave_the_entered_set_silently() {
    let (_ids, mut space) = setup();
    space.map_output(output(1, 800, 600), 1, pt(0, 0));
    let mut w = window(7, 200, 200);
    w.surfaces = vec![SurfaceLeaf { id: 70, offset: pt(0, 0), size: Some(Size { w: 200, h: 200 }) }];
    space.map_window(w, pt(100, 100));
    assert_eq!(space.refresh(&vec![]), vec![SurfaceEvent::Enter { output: 1, surface: 70 }]);
    let mut gone = window(7, 200, 200);
    gone.alive = false;
    space.commit(gone);
    assert!(space.refresh(&vec![70]).is_empty());
    assert!(space.windows().is_empty());
    assert!(space.outputs()[0].state.surfaces.is_empty());
}

#[test]
fn remap_keeps_the_space_drawn_flag() {
    let (_ids, mut space) = setup();
    let o = output(1, 800, 600);
    space.map_output(output(1, 800, 600), 1, pt(0, 0));
    space.map_window(window(1, 100, 100), pt(0, 0));
    let plan = space.render_output(&o, 0).unwrap().unwrap();
    assert_eq!(space.finish_render(plan, true), Ok(true));
    space.map_window(window(1, 100, 100), pt(10, 10));
    assert_eq!(space.send_frames(false), vec![ToplevelId::Xdg(1)]);
}
