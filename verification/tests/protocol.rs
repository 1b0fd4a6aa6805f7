use othello_core::command::{Command, Move, Wl};
use othello_core::command_parser::{
    color_from_string, command_from_words, move_from_string, parse_command, wl_from_string,
};
use othello_core::report::{string_of_hist, string_of_scores, OpMove};

fn line(text: &str) -> Option<Command> {
    parse_command(&text.to_string())
}

#[test]
fn moves_are_written_as_letter_and_digit() {
    assert_eq!(Move::Mv(0, 0).string_of_move(), "A1");
    assert_eq!(Move::Mv(7, 7).string_of_move(), "H8");
    assert_eq!(Move::Mv(2, 3).string_of_move(), "C4");
    assert_eq!(Move::Mv(5, 0).string_of_move(), "F1");
    assert_eq!(Move::Pass.string_of_move(), "PASS");
    assert_eq!(Move::GiveUp.string_of_move(), "GIVEUP");
}

#[test]
fn a_copy_of_a_move_is_the_move() {
    assert_eq!(Move::Mv(3, 4).clone(), Move::Mv(3, 4));
    assert_eq!(Move::Pass.clone(), Move::Pass);
    assert_eq!(Move::GiveUp.clone(), Move::GiveUp);
}

#[test]
fn words_name_colors_ends_and_moves() {
    assert_eq!(color_from_string(&"BLACK".to_string()), Some(true));
    assert_eq!(color_from_string(&"WHITE".to_string()), Some(false));
    assert_eq!(color_from_string(&"black".to_string()), None);
    assert_eq!(wl_from_string(&"WIN".to_string()), Some(Wl::Win));
    assert_eq!(wl_from_string(&"LOSE".to_string()), Some(Wl::Lose));
    assert_eq!(wl_from_string(&"TIE".to_string()), Some(Wl::Tie));
    assert_eq!(wl_from_string(&"DRAW".to_string()), None);
    assert_eq!(move_from_string(&"PASS".to_string()), Some(Move::Pass));
    assert_eq!(move_from_string(&"GIVEUP".to_string()), Some(Move::GiveUp));
    assert_eq!(move_from_string(&"A1".to_string()), Some(Move::Mv(0, 0)));
    assert_eq!(move_from_string(&"H8".to_string()), Some(Move::Mv(7, 7)));
    assert_eq!(move_from_string(&"C4xyz".to_string()), Some(Move::Mv(2, 3)));
    assert_eq!(move_from_string(&"a0".to_string()), Some(Move::Mv(32, -1)));
    assert_eq!(move_from_string(&"A".to_string()), None);
    assert_eq!(move_from_string(&"".to_string()), None);
    assert_eq!(move_from_string(&"\u{e9}1".to_string()), None);
}

#[test]
fn written_moves_are_read_back() {
    for i in 0..8 {
        for j in 0..8 {
            let text = Move::Mv(i, j).string_of_move();
            assert_eq!(move_from_string(&text), Some(Move::Mv(i, j)));
        }
    }
    assert_eq!(move_from_string(&Move::Pass.string_of_move()), Some(Move::Pass));
    assert_eq!(move_from_string(&Move::GiveUp.string_of_move()), Some(Move::GiveUp));
}

#[test]
fn move_lines() {
    assert!(matches!(line("MOVE D3"), Some(Command::Move(Move::Mv(3, 2)))));
    assert!(matches!(line("  MOVE \t PASS  \n"), Some(Command::Move(Move::Pass))));
    assert!(matches!(line("MOVE GIVEUP extra"), Some(Command::Move(Move::GiveUp))));
    assert!(matches!(line("MOVE"), Some(Command::Empty)));
    assert!(matches!(line("MOVE X"), None));
}

#[test]
fn start_lines() {
    match line("START BLACK someone 60000") {
        Some(Command::Start(color, name, time)) => {
            assert!(color);
            assert_eq!(name, "someone");
            assert_eq!(time, 60000);
        }
        other => panic!("{:?}", other),
    }
    match line("START WHITE x -5") {
        Some(Command::Start(color, name, time)) => {
            assert!(!color);
            assert_eq!(name, "x");
            assert_eq!(time, -5);
        }
        other => panic!("{:?}", other),
    }
    assert!(matches!(line("START BLACK someone"), Some(Command::Empty)));
    assert!(matches!(line("START BLACK someone soon"), Some(Command::Empty)));
    assert!(matches!(line("START RED someone soon"), Some(Command::Empty)));
    assert!(matches!(line("START RED someone 10"), None));
}

#[test]
fn ack_lines() {
    assert!(matches!(line("ACK 1234"), Some(Command::Ack(1234))));
    assert!(matches!(line("ACK +7"), Some(Command::Ack(7))));
    assert!(matches!(line("ACK -2147483648"), Some(Command::Ack(i32::MIN))));
    assert!(matches!(line("ACK 2147483647"), Some(Command::Ack(i32::MAX))));
    assert!(matches!(line("ACK 2147483648"), Some(Command::Empty)));
    assert!(matches!(line("ACK 12a"), Some(Command::Empty)));
    assert!(matches!(line("ACK -"), Some(Command::Empty)));
    assert!(matches!(line("ACK"), Some(Command::Empty)));
}

#[test]
fn end_lines() {
    match line("END WIN 40 24 DOUBLE_PASS") {
        Some(Command::End(wl, n, m, reason)) => {
            assert_eq!(wl, Wl::Win);
            assert_eq!((n, m), (40, 24));
            assert_eq!(reason, "DOUBLE_PASS");
        }
        other => panic!("{:?}", other),
    }
    assert!(matches!(line("END LOSE 1 2 r"), Some(Command::End(Wl::Lose, 1, 2, _))));
    assert!(matches!(line("END TIE 32 32 r"), Some(Command::End(Wl::Tie, 32, 32, _))));
    assert!(matches!(line("END WIN 40 24"), Some(Command::Empty)));
    assert!(matches!(line("END WIN x 24 r"), Some(Command::Empty)));
    assert!(matches!(line("END DRAW x 24 r"), Some(Command::Empty)));
    assert!(matches!(line("END DRAW 1 24 r"), None));
}

#[test]
fn bye_lines() {
    match line("BYE a 10 2 1 bb -3 0 4") {
        Some(Command::Bye(stat)) => {
            assert_eq!(
                stat,
                vec![("a".to_string(), (10, 2, 1)), ("bb".to_string(), (-3, 0, 4))]
            );
        }
        other => panic!("{:?}", other),
    }
    match line("BYE a 10 x 1 b 1 2 3 c 4 5") {
        Some(Command::Bye(stat)) => assert_eq!(stat, vec![("b".to_string(), (1, 2, 3))]),
        other => panic!("{:?}", other),
    }
    match line("BYE") {
        Some(Command::Bye(stat)) => assert!(stat.is_empty()),
        other => panic!("{:?}", other),
    }
}

#[test]
fn other_lines_are_empty() {
    assert!(matches!(line(""), Some(Command::Empty)));
    assert!(matches!(line("   "), Some(Command::Empty)));
    assert!(matches!(line("OPEN name"), Some(Command::Empty)));
    assert!(matches!(line("move D3"), Some(Command::Empty)));
    assert!(matches!(command_from_words(&Vec::new()), Some(Command::Empty)));
    assert!(matches!(
        command_from_words(&vec!["ACK".to_string(), "9".to_string()]),
        Some(Command::Ack(9))
    ));
}

#[test]
fn a_game_is_recorded_move_by_move() {
    assert_eq!(OpMove::PMove(Move::Mv(2, 3)).string_of_opmove(), "+C4");
    assert_eq!(OpMove::OMove(Move::Mv(0, 7)).string_of_opmove(), "-A8");
    assert_eq!(OpMove::PMove(Move::Pass).string_of_opmove(), "+PASS");
    assert_eq!(OpMove::OMove(Move::GiveUp).string_of_opmove(), "-GIVEUP");
    let hist = vec![
        OpMove::PMove(Move::Mv(2, 3)),
        OpMove::OMove(Move::Mv(2, 2)),
        OpMove::PMove(Move::Pass),
        OpMove::OMove(Move::Mv(7, 0)),
    ];
    assert_eq!(string_of_hist(&hist), "+C4-C3+PASS-H1");
    assert_eq!(string_of_hist(&Vec::new()), "");
}

#[test]
fn scores_are_set_in_columns() {
    let scores = vec![
        ("alice".to_string(), (12, 3, 1)),
        ("bo".to_string(), (-5, 0, 4)),
        ("carolina".to_string(), (100, 10, 0)),
    ];
    assert_eq!(
        string_of_scores(&scores),
        "alice:     12 (Win 3, Lose 1)\nbo:        -5 (Win 0, Lose 4)\ncarolina: 100 (Win 10, Lose 0)\n"
    );
    assert_eq!(string_of_scores(&Vec::new()), "");
    assert_eq!(
        string_of_scores(&vec![("x".to_string(), (0, -2147483648, 2147483647))]),
        "x: 0 (Win -2147483648, Lose 2147483647)\n"
    );
}
