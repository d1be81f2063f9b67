use rut::cell::TraceFrame;
use rut::trace::{capture_frames, frame_at, frame_pos, render_trace, FuncSite};
use rut::trap::TrapKind;

fn frames(v: &[(u32, u32)]) -> Vec<TraceFrame> {
    v.iter().map(|&(func, pc)| TraceFrame { func, pc }).collect()
}

fn pairs(v: &[TraceFrame]) -> Vec<(u32, u32)> {
    v.iter().map(|f| (f.func, f.pc)).collect()
}

#[test]
fn a_capture_lists_the_current_frame_then_the_call_sites_innermost_first() {
    let saved = frames(&[(0, 10), (1, 0), (2, 5)]);
    let got = capture_frames(3, 41, &saved);
    assert_eq!(pairs(&got), vec![(3, 41), (2, 4), (1, 0), (0, 9)]);
    assert_eq!(pairs(&capture_frames(7, 0, &vec![])), vec![(7, 0)]);
}

#[test]
fn a_frame_index_outside_the_trace_traps() {
    let t = frames(&[(1, 2), (3, 4)]);
    let f = frame_at(&t, 1).unwrap();
    assert_eq!((f.func, f.pc), (3, 4));
    let e = frame_at(&t, 2).unwrap_err();
    assert_eq!(e.kind, TrapKind::IndexOutOfBounds);
    assert_eq!(e.msg, "StackTrace index 2 out of range — len is 2");
    let e = frame_at(&t, -1).unwrap_err();
    assert_eq!(e.msg, "StackTrace index -1 out of range — len is 2");
}

#[test]
fn a_stripped_program_has_no_positions() {
    assert_eq!(frame_pos(&vec![(3, 1), (12, 9)], 1), (12, 9));
    assert_eq!(frame_pos(&vec![(3, 1), (12, 9)], 2), (0, 0));
    assert_eq!(frame_pos(&vec![], 0), (0, 0));
}

#[test]
fn render_names_each_frame_with_its_position_or_its_pc() {
    let funcs = vec![
        FuncSite { name: "main".to_string(), pos: vec![(1, 1), (4, 5)] },
        FuncSite { name: "b".to_string(), pos: vec![] },
        FuncSite { name: "c".to_string(), pos: (0..42).map(|i| if i == 41 { (12, 9) } else { (0, 0) }).collect() },
    ];
    let t = frames(&[(2, 41), (1, 7), (0, 1)]);
    assert_eq!(
        render_trace("app_main", &funcs, &t),
        "at c (app_main:12:9)\nat b (app_main #1 @ pc 7)\nat main (app_main:4:5)"
    );
    let t = frames(&[(2, 40)]);
    assert_eq!(render_trace("app_main", &funcs, &t), "at c (app_main #2 @ pc 40)");
    assert_eq!(render_trace("app_main", &funcs, &vec![]), "");
}
