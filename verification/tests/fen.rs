use chess_engine::fen::{chars_of, parse_fen, print_fen, string_of};
use chess_engine::{FenField, FenReason, Game, Move, ParseError, Piece};

const START: &str = "rnbqkbnr/pppppppp/8/8/8/8/PPPPPPPP/RNBQKBNR w KQkq - 0 1";

fn at(name: &str) -> usize {
    let b = name.as_bytes();
    (7 - (b[0] - b'a') as usize) * 8 + (b[1] - b'1') as usize
}

fn error_of(s: &str) -> ParseError {
    match Game::from_fen(s) {
        Ok(_) => panic!("accepted {}", s),
        Err(e) => e,
    }
}

#[test]
fn start_position_is_read() {
    let g = Game::from_fen(START).unwrap();
    assert_eq!(g.piece_at(at("a1")), Piece::Rook(true));
    assert_eq!(g.piece_at(at("e1")), Piece::King(true));
    assert_eq!(g.piece_at(at("d1")), Piece::Queen(true));
    assert_eq!(g.piece_at(at("h8")), Piece::Rook(false));
    assert_eq!(g.piece_at(at("e8")), Piece::King(false));
    assert_eq!(g.piece_at(at("c7")), Piece::Pawn(false));
    assert_eq!(g.piece_at(at("g2")), Piece::Pawn(true));
    assert_eq!(g.piece_at(at("e4")), Piece::Nil);
    assert_eq!(at("e1"), 24);
    assert_eq!(at("e8"), 31);
    assert_eq!(at("h1"), 0);
    assert_eq!(at("a8"), 63);
    assert!(g.turn());
    let c = g.castling();
    assert!(c.white_short && c.white_long && c.black_short && c.black_long);
    assert_eq!(g.half_moves(), 0);
    assert_eq!(g.full_moves(), 1);
    assert_eq!(g.rep_count(), 1);
    assert_eq!(g.undo_len(), 0);
}

#[test]
fn written_text_is_read_back_as_written() {
    for fen in [
        START,
        "r3k2r/p1ppqpb1/bn2pnp1/3PN3/1p2P3/2N2Q1p/PPPBBPPP/R3K2R w KQkq - 0 1",
        "8/2p5/3p4/KP5r/1R3p1k/8/4P1P1/8 b - - 12 34",
        "rnbqkbnr/pppppppp/8/8/4P3/8/PPPP1PPP/RNBQKBNR b KQkq e3 0 1",
        "rnbqkbnr/ppp1pppp/8/8/3pP3/8/PPPP1PPP/RNBQKBNR b Kq e3 0 3",
        "4k3/8/8/3pP3/8/8/8/4K3 w - d6 0 2",
        "8/8/8/8/8/8/8/8 w - - 65535 65535",
        "7k/5Q2/6K1/8/8/8/8/8 b Qk - 100 0",
    ] {
        let g = Game::from_fen(fen).unwrap();
        assert_eq!(g.to_fen(), fen);
        let again = Game::from_fen(&g.to_fen()).unwrap();
        assert_eq!(again.to_fen(), fen);
        assert_eq!(again.hash(), g.hash());
    }
}

#[test]
fn missing_fields_have_their_defaults() {
    let g = Game::from_fen("6k1/5ppp/8/8/8/8/5PPP/R5K1 w - -").unwrap();
    assert_eq!(g.to_fen(), "6k1/5ppp/8/8/8/8/5PPP/R5K1 w - - 0 1");
    let g = Game::from_fen("6k1/5ppp/8/8/8/8/5PPP/R5K1 b").unwrap();
    assert_eq!(g.to_fen(), "6k1/5ppp/8/8/8/8/5PPP/R5K1 b - - 0 1");
    let g = Game::from_fen("6k1/5ppp/8/8/8/8/5PPP/R5K1").unwrap();
    assert_eq!(g.to_fen(), "6k1/5ppp/8/8/8/8/5PPP/R5K1 w - - 0 1");
    let g = Game::from_fen("6k1/5ppp/8/8/8/8/5PPP/R5K1 b Kq - 7").unwrap();
    assert_eq!(g.to_fen(), "6k1/5ppp/8/8/8/8/5PPP/R5K1 b Kq - 7 1");
}

#[test]
fn en_passant_field_gives_the_last_move() {
    let mut g = Game::from_fen("rnbqkbnr/ppp1pppp/8/8/3pP3/8/PPPP1PPP/RNBQKBNR b KQkq e3 0 3").unwrap();
    let last = g.last_move();
    assert_eq!((last.frm(), last.to()), (at("e2"), at("e4")));
    let v = g.legal_moves(Some(&last));
    let ep: Vec<&Move> = v.iter().filter(|m| m.en_passant()).collect();
    assert_eq!(ep.len(), 1);
    assert_eq!((ep[0].frm(), ep[0].to()), (at("d4"), at("e3")));
}

#[test]
fn bad_placement_is_refused() {
    let p = |reason| ParseError { field: FenField::Placement, reason };
    assert_eq!(error_of(""), p(FenReason::BadLength));
    assert_eq!(error_of("8/8/8/8/8/8/8"), p(FenReason::BadLength));
    assert_eq!(error_of("8/8/8/8/8/8/8/7"), p(FenReason::BadLength));
    assert_eq!(error_of("8/8/8/8/8/8/8/9"), p(FenReason::BadLength));
    assert_eq!(error_of("8/8/8/8/8/8/8/pppppppp1"), p(FenReason::BadChar));
    assert_eq!(error_of("8/8/8/8/8/8/8/8/8"), p(FenReason::BadChar));
    assert_eq!(error_of("8/8/8/8/8/8/8/44"), p(FenReason::BadChar));
    assert_eq!(error_of("8/8/8/8/8/8/8/p0ppppppp"), p(FenReason::BadChar));
    assert_eq!(error_of("8/8/8/8/8/8/8/xppppppp"), p(FenReason::BadChar));
    assert_eq!(error_of("8/8/8/8/8/8/88"), p(FenReason::BadChar));
    assert_eq!(error_of("8/8/8/8/8/8/8/8w"), p(FenReason::BadChar));
}

#[test]
fn bad_fields_are_refused() {
    let e = |field, reason| ParseError { field, reason };
    let b = "8/8/8/8/8/8/8/8";
    assert_eq!(error_of(&format!("{} ", b)), e(FenField::Side, FenReason::Empty));
    assert_eq!(error_of(&format!("{} W", b)), e(FenField::Side, FenReason::BadChar));
    assert_eq!(error_of(&format!("{}  w", b)), e(FenField::Side, FenReason::BadChar));
    assert_eq!(error_of(&format!("{} wb", b)), e(FenField::Side, FenReason::BadChar));
    assert_eq!(error_of(&format!("{} w ", b)), e(FenField::Castling, FenReason::Empty));
    assert_eq!(error_of(&format!("{} w x", b)), e(FenField::Castling, FenReason::BadChar));
    assert_eq!(error_of(&format!("{} w QK", b)), e(FenField::Castling, FenReason::BadChar));
    assert_eq!(error_of(&format!("{} w KK", b)), e(FenField::Castling, FenReason::BadChar));
    assert_eq!(error_of(&format!("{} w K-", b)), e(FenField::Castling, FenReason::BadChar));
    assert_eq!(error_of(&format!("{} w - ", b)), e(FenField::EnPassant, FenReason::Empty));
    assert_eq!(error_of(&format!("{} w - e", b)), e(FenField::EnPassant, FenReason::BadLength));
    assert_eq!(error_of(&format!("{} w - i3", b)), e(FenField::EnPassant, FenReason::BadChar));
    assert_eq!(error_of(&format!("{} w - e9", b)), e(FenField::EnPassant, FenReason::BadChar));
    assert_eq!(error_of(&format!("{} w - e0", b)), e(FenField::EnPassant, FenReason::BadChar));
    assert_eq!(error_of(&format!("{} w - e6", b)), e(FenField::EnPassant, FenReason::NoPawn));
    assert_eq!(error_of(&format!("{} w - -x", b)), e(FenField::EnPassant, FenReason::BadChar));
    assert_eq!(error_of(&format!("{} w - - ", b)), e(FenField::HalfMove, FenReason::Empty));
    assert_eq!(error_of(&format!("{} w - - bm", b)), e(FenField::HalfMove, FenReason::BadChar));
    assert_eq!(error_of(&format!("{} w - - 01", b)), e(FenField::HalfMove, FenReason::BadChar));
    assert_eq!(error_of(&format!("{} w - - 65536", b)), e(FenField::HalfMove, FenReason::TooLarge));
    assert_eq!(error_of(&format!("{} w - - 1x", b)), e(FenField::HalfMove, FenReason::BadChar));
    assert_eq!(error_of(&format!("{} w - - 1 ", b)), e(FenField::FullMove, FenReason::Empty));
    assert_eq!(error_of(&format!("{} w - - 1 -1", b)), e(FenField::FullMove, FenReason::BadChar));
    assert_eq!(error_of(&format!("{} w - - 1 999999", b)), e(FenField::FullMove, FenReason::TooLarge));
    assert_eq!(error_of(&format!("{} w - - 1 2 ", b)), e(FenField::FullMove, FenReason::Trailing));
    assert_eq!(error_of(&format!("{} w - - 1 2 3", b)), e(FenField::FullMove, FenReason::Trailing));
}

#[test]
fn en_passant_square_needs_its_pawn() {
    let e = ParseError { field: FenField::EnPassant, reason: FenReason::NoPawn };
    // No pawn has moved to e4.
    assert_eq!(error_of("4k3/8/8/8/8/8/4P3/4K3 b - e3 0 1"), e);
    // The square belongs to the other side to move.
    assert_eq!(error_of("4k3/8/8/8/4P3/8/8/4K3 w - e3 0 1"), e);
    // The square that the pawn passed over is taken.
    assert_eq!(error_of("4k3/8/8/8/4P3/4N3/8/4K3 b - e3 0 1"), e);
    assert!(Game::from_fen("4k3/8/8/8/4P3/8/8/4K3 b - e3 0 1").is_ok());
}

#[test]
fn fields_are_parsed_and_printed_as_plain_values() {
    let text = chars_of("8/8/8/8/8/8/8/R7 b Kq a3 10 20");
    let f = parse_fen(&text).ok().unwrap();
    assert_eq!(f.board[at("a1")], Piece::Rook(true));
    assert!(!f.colour);
    assert!(f.castling.white_short && !f.castling.white_long);
    assert!(!f.castling.black_short && f.castling.black_long);
    assert_eq!(f.ep, Some(at("a3")));
    assert_eq!((f.half, f.full, f.given), (10, 20, 6));
    assert_eq!(print_fen(&f), text);
    assert_eq!(string_of(&text), "8/8/8/8/8/8/8/R7 b Kq a3 10 20");
}

#[test]
fn text_with_fewer_fields_is_read_but_not_written_back() {
    let g = Game::from_fen("4k3/8/8/8/8/8/8/4K3 b Kq").unwrap();
    assert_ne!(g.to_fen(), "4k3/8/8/8/8/8/8/4K3 b Kq");
    assert_eq!(Game::from_fen(&g.to_fen()).unwrap().to_fen(), g.to_fen());
}

#[test]
fn an_error_names_the_first_field_that_cannot_be_read() {
    let field = |s: &str| error_of(s).field;
    // A rank that does not add up, a missing rank, an unknown letter.
    assert_eq!(field("8/8/8/8/8/8/8/7 w KQkq - 0 1"), FenField::Placement);
    assert_eq!(field("8/8/8/8/8/8/8 w KQkq - 0 1"), FenField::Placement);
    assert_eq!(field("8/8/8/8/8/8/8/7x w KQkq - 0 1"), FenField::Placement);
    // The first bad field is named, whatever follows it.
    assert_eq!(field("8/8/8/8/8/8/8/8 x QK e9 -1 -1"), FenField::Side);
    assert_eq!(field("8/8/8/8/8/8/8/8 w QK e9 -1 -1"), FenField::Castling);
    assert_eq!(field("8/8/8/8/8/8/8/8 w KQ e9 -1 -1"), FenField::EnPassant);
    assert_eq!(field("8/8/8/8/8/8/8/8 w KQ - -1 -1"), FenField::HalfMove);
    assert_eq!(field("8/8/8/8/8/8/8/8 w KQ - 1 -1"), FenField::FullMove);
    // Every field can be read, but no pawn has passed the square.
    assert_eq!(
        error_of("8/8/8/8/8/8/8/8 w KQ e6 1 1"),
        ParseError { field: FenField::EnPassant, reason: FenReason::NoPawn }
    );
}
