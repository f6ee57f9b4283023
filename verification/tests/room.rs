use niri_taskbar::room::{class_for, content_rect, make_room, write_room_css, Edges, RoomStep};
use niri_taskbar::slide::Slot;

#[test]
fn room_is_written_as_css() {
    let margin = Edges { top: 0, right: 3, bottom: -4, left: 0 };
    let padding = Edges { top: 5, right: 1, bottom: 2, left: 1 };
    assert_eq!(
        write_room_css(&margin, &padding),
        "button.stack-room-1 { margin-right: 5px; margin-bottom: -2px; padding: 4px 0px 1px 0px; }\n\
         button.stack-room-2 { margin-right: 7px; margin-bottom: 0px; padding: 3px 0px 0px 0px; }\n"
    );
    assert_eq!(class_for(2), "stack-room-2");
}

#[test]
fn room_is_made_only_where_it_has_to_be() {
    assert_eq!(make_room(1, 1, true), RoomStep::Nothing);
    assert_eq!(make_room(1, 2, false), RoomStep::Nothing);
    assert_eq!(make_room(0, 2, false), RoomStep::Change { write: true });
    assert_eq!(make_room(1, 0, true), RoomStep::Change { write: false });
}

#[test]
fn content_is_what_the_margins_leave() {
    let button = Slot { x: 50, y: 10, width: 30, height: 20 };
    let margin = Edges { top: 1, right: 2, bottom: 3, left: 4 };
    let content = content_rect(&button, &margin, 40, 5).unwrap();
    assert_eq!((content.x, content.y, content.width, content.height), (14, 6, 24, 16));
    let wide = Edges { top: 0, right: 15, bottom: 0, left: 15 };
    assert!(content_rect(&button, &wide, 0, 0).is_none());
}
