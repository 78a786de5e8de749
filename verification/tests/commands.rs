use tubefeeder::command::{download_destination, downloader_command, player_command, split_command};

#[test]
fn split_command_gives_program_and_arguments() {
    let (program, args) = split_command("mpv --ytdl --fs");
    assert_eq!(program, "mpv");
    assert_eq!(args, vec!["--ytdl".to_string(), "--fs".to_string()]);
}

#[test]
fn split_command_keeps_empty_pieces() {
    let (program, args) = split_command("a  b ");
    assert_eq!(program, "a");
    assert_eq!(args, vec!["".to_string(), "b".to_string(), "".to_string()]);
    let (program, args) = split_command("");
    assert_eq!(program, "");
    assert!(args.is_empty());
}

#[test]
fn player_command_defaults_to_mpv() {
    assert_eq!(player_command(None), "mpv --ytdl");
    assert_eq!(player_command(Some("vlc".to_string())), "vlc");
}

#[test]
fn downloader_command_defaults_to_youtube_dl() {
    assert_eq!(
        downloader_command(None, None),
        "youtube-dl --output $HOME/Downloads/%(title)s-%(id)s.%(ext)s"
    );
    assert_eq!(downloader_command(None, Some("/dl".to_string())), "youtube-dl --output /dl");
    assert_eq!(downloader_command(Some("yt-dlp".to_string()), Some("/dl".to_string())), "yt-dlp");
}

#[test]
fn destination_is_the_last_named_file() {
    let out = "[youtube] abc\n[download] Destination: /v/a.f137.mp4\n[download] Destination: /v/a.f140.m4a\n[Merger] Merging formats into \"/v/a.mp4\"\nDeleting file\n";
    assert_eq!(download_destination(out), "/v/a.mp4");
}

#[test]
fn destination_without_merge() {
    let out = "[download] Destination: /v/b.webm\r\n[download] 100%\r\n";
    assert_eq!(download_destination(out), "/v/b.webm");
}

#[test]
fn destination_is_empty_when_not_named() {
    assert_eq!(download_destination("nothing here\n"), "");
    assert_eq!(download_destination(""), "");
}

#[test]
fn destination_strips_both_messages_in_turn() {
    let out = "[Merger] Merging formats into [download] Destination: \"\"x\"";
    assert_eq!(download_destination(out), "x");
}

#[test]
fn joining_the_pieces_gives_the_command_back() {
    for command in ["mpv --ytdl", "a  b ", "", " x", "flatpak run io.mpv.Mpv"] {
        let (program, args) = split_command(command);
        let mut pieces = vec![program];
        pieces.extend(args);
        assert_eq!(pieces.join(" "), command);
        assert!(pieces.iter().all(|p| !p.contains(' ')));
    }
}
